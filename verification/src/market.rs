//! Instruments, positions and orders.
use crate::double::{
    absolute, difference, equal, larger, less, negated, product, quotient, ratio, sign_of, smaller,
    sum, whole, zero, Double, Value,
};
use std::collections::VecDeque;
use vstd::arithmetic::power2::{lemma2_to64_rest, lemma_pow2_adds, pow2};
use vstd::prelude::*;

verus! {

/// How many points of an instrument's price are kept.
pub const MAX_HISTORY: usize = 120;

/// The colours that the screen uses.
#[derive(Clone, Copy, PartialEq, Eq, Structural, Debug)]
pub enum Color {
    Black,
    Red,
    Green,
    Yellow,
    Cyan,
    Gray,
    DarkGray,
    LightCyan,
    White,
}

/// Which way an order trades.
#[derive(Clone, Copy, PartialEq, Eq, Structural, Debug)]
pub enum Side {
    Buy,
    Sell,
}

impl Side {
    /// One for a purchase, minus one for a sale.
    pub open spec fn factor(self) -> Value {
        match self {
            Side::Buy => whole(1),
            Side::Sell => negated(whole(1)),
        }
    }

    /// The name of the side.
    pub open spec fn name(self) -> Seq<char> {
        match self {
            Side::Buy => "BUY"@,
            Side::Sell => "SELL"@,
        }
    }

    /// One for a purchase, minus one for a sale.
    pub fn sign(self) -> (r: Double)
        ensures
            r@ == self.factor(),
    {
        match self {
            Side::Buy => Double::from_whole(1),
            Side::Sell => Double::from_whole(1).negate(),
        }
    }

    /// The name of the side, in capitals.
    pub fn label(self) -> (r: &'static str)
        ensures
            r@ == self.name(),
    {
        match self {
            Side::Buy => "BUY",
            Side::Sell => "SELL",
        }
    }

    /// The colour of the side: green to buy, red to sell.
    pub fn color(self) -> (r: Color)
        ensures
            r == (match self {
                Side::Buy => Color::Green,
                Side::Sell => Color::Red,
            }),
    {
        match self {
            Side::Buy => Color::Green,
            Side::Sell => Color::Red,
        }
    }
}

/// An instrument as values.
#[verifier::ext_equal]
pub struct InstrumentView {
    pub symbol: Seq<char>,
    pub price: Value,
    pub drift: Value,
    pub volatility: Value,
    pub day_open: Value,
    /// Times and prices, the oldest first.
    pub history: Seq<(Value, Value)>,
}

/// An instrument that can be traded.
pub struct Instrument {
    pub symbol: &'static str,
    pub price: Double,
    pub drift: Double,
    pub volatility: Double,
    pub day_open: Double,
    pub history: VecDeque<(Double, Double)>,
}

/// The values of a list of points.
pub open spec fn point_values(s: Seq<(Double, Double)>) -> Seq<(Value, Value)> {
    s.map_values(|p: (Double, Double)| (p.0@, p.1@))
}

impl View for Instrument {
    type V = InstrumentView;

    open spec fn view(&self) -> InstrumentView {
        InstrumentView {
            symbol: self.symbol@,
            price: self.price@,
            drift: self.drift@,
            volatility: self.volatility@,
            day_open: self.day_open@,
            history: point_values(self.history@),
        }
    }
}

/// An instrument at the start of a day: a full history at one price.
#[verifier::opaque]
pub open spec fn listed(
    symbol: Seq<char>,
    price: Value,
    drift: Value,
    volatility: Value,
) -> InstrumentView {
    InstrumentView {
        symbol,
        price,
        drift,
        volatility,
        day_open: price,
        history: Seq::new(MAX_HISTORY as nat, |i: int| (whole(i as nat), price)),
    }
}

/// The least price that an instrument can fall to.
pub open spec fn floor_price() -> Value {
    ratio(1, 10)
}

/// A list of points with one more at the end, and without the first one if it was full.
pub open spec fn recorded(history: Seq<(Value, Value)>, point: (Value, Value)) -> Seq<
    (Value, Value),
> {
    if history.len() >= MAX_HISTORY {
        history.drop_first().push(point)
    } else {
        history.push(point)
    }
}

/// An instrument after one step of time: the price grows by the drift and the noise, does not fall
/// below the floor, and enters the history.
pub open spec fn moved(i: InstrumentView, clock: nat, noise: Value) -> InstrumentView {
    let price = larger(product(i.price, sum(sum(whole(1), i.drift), noise)), floor_price());
    InstrumentView { price, history: recorded(i.history, (whole(clock), price)), ..i }
}

/// The change since the start of the day, in percent.
pub open spec fn change(i: InstrumentView) -> Value {
    product(quotient(difference(i.price, i.day_open), i.day_open), whole(100))
}

impl Instrument {
    /// An instrument with a full history at its opening price.
    pub fn new(symbol: &'static str, price: Double, drift: Double, volatility: Double) -> (r: Self)
        ensures
            r@ == listed(symbol@, price@, drift@, volatility@),
            r.symbol == symbol,
    {
        let mut history: VecDeque<(Double, Double)> = VecDeque::new();
        let mut idx: usize = 0;
        while idx < MAX_HISTORY
            invariant
                idx <= MAX_HISTORY,
                history@.len() == idx,
                forall|i: int|
                    0 <= i < idx ==> (#[trigger] history@[i]).0@ == whole(i as nat)
                        && history@[i].1@ == price@,
            decreases MAX_HISTORY - idx,
        {
            history.push_back((Double::from_whole(idx as u64), price));
            idx = idx + 1;
        }
        let r = Instrument { symbol, price, drift, volatility, day_open: price, history };
        proof {
            reveal(listed);
            assert(r@.history =~= listed(symbol@, price@, drift@, volatility@).history);
        }
        r
    }

    /// The change since the start of the day, in percent.
    pub fn change_percent(&self) -> (r: Double)
        ensures
            r@ == change(self@),
    {
        self.price.minus(self.day_open).over(self.day_open).times(Double::from_whole(100))
    }

    /// Moves the price by one step of time.
    pub fn tick(&mut self, clock: u64, noise: Double)
        ensures
            final(self)@ == moved(old(self)@, clock as nat, noise@),
            final(self).symbol == old(self).symbol,
    {
        let growth = Double::from_whole(1).plus(self.drift).plus(noise);
        let next_price = self.price.times(growth);
        self.price = next_price.max(Double::from_ratio(1, 10));
        if self.history.len() >= MAX_HISTORY {
            self.history.pop_front();
        }
        let point = (Double::from_whole(clock), self.price);
        self.history.push_back(point);
        assert(final(self)@.history =~= moved(old(self)@, clock as nat, noise@).history);
    }
}

/// The distance between one and the next larger number, `2^-52`.
pub open spec fn epsilon() -> Value {
    Value::Finite { negative: false, magnitude: pow2(1022) }
}

/// Whether a quantity counts as none.
pub open spec fn is_flat(qty: Value) -> bool {
    less(absolute(qty), epsilon())
}

/// Whether a quantity counts as none.
pub fn flat(qty: Double) -> (r: bool)
    ensures
        r == is_flat(qty@),
{
    let eps = Double::from_bits(0x3CB0_0000_0000_0000);
    proof {
        lemma2_to64_rest();
        lemma_pow2_adds(52, 970);
        assert(eps@ == epsilon());
    }
    qty.abs().lt(eps)
}

/// A position as values.
#[verifier::ext_equal]
pub struct PositionView {
    pub qty: Value,
    pub average_price: Value,
    pub realized_pnl: Value,
}

/// What is held of one instrument.
pub struct Position {
    /// Positive if the instrument is owned, negative if it is owed.
    pub qty: Double,
    pub average_price: Double,
    pub realized_pnl: Double,
}

impl View for Position {
    type V = PositionView;

    open spec fn view(&self) -> PositionView {
        PositionView {
            qty: self.qty@,
            average_price: self.average_price@,
            realized_pnl: self.realized_pnl@,
        }
    }
}

/// A position before any trade.
pub open spec fn no_position() -> PositionView {
    PositionView { qty: zero(), average_price: zero(), realized_pnl: zero() }
}

/// What closing a position at `mark` would yield.
pub open spec fn unrealized(p: PositionView, mark: Value) -> Value {
    if is_flat(p.qty) {
        zero()
    } else {
        product(difference(mark, p.average_price), p.qty)
    }
}

/// What a position is worth at `mark`, whichever way it goes.
pub open spec fn exposed(p: PositionView, mark: Value) -> Value {
    product(absolute(p.qty), mark)
}

/// Whether a fill on `side` opens or enlarges the position, rather than reduces it.
pub open spec fn extends(p: PositionView, side: Side, qty: Value) -> bool {
    is_flat(p.qty) || equal(sign_of(p.qty), sign_of(product(qty, side.factor())))
}

/// The quantity held after a fill, before a remainder too small to count is dropped.
pub open spec fn carried(p: PositionView, side: Side, qty: Value) -> Value {
    sum(p.qty, product(qty, side.factor()))
}

/// The profit of the part of a position that a fill against it closes.
pub open spec fn closed_profit(p: PositionView, qty: Value, price: Value) -> Value {
    let closing = smaller(absolute(p.qty), qty);
    if less(zero(), p.qty) {
        product(difference(price, p.average_price), closing)
    } else {
        product(difference(p.average_price, price), closing)
    }
}

/// The profit that a fill realizes.
pub open spec fn profit(p: PositionView, side: Side, qty: Value, price: Value) -> Value {
    if extends(p, side, qty) {
        zero()
    } else {
        closed_profit(p, qty, price)
    }
}

/// The average price after a fill: weighted by quantity where the position grows, the price of the
/// fill where it changes sides, zero where nothing is left, and otherwise unchanged.
pub open spec fn averaged(p: PositionView, side: Side, qty: Value, price: Value) -> Value {
    let left = carried(p, side, qty);
    if is_flat(left) {
        zero()
    } else if extends(p, side, qty) {
        quotient(
            sum(product(p.average_price, absolute(p.qty)), product(price, qty)),
            absolute(left),
        )
    } else if equal(sign_of(p.qty), sign_of(left)) {
        p.average_price
    } else {
        price
    }
}

/// A position after a fill.
pub open spec fn filled(p: PositionView, side: Side, qty: Value, price: Value) -> PositionView {
    let left = carried(p, side, qty);
    PositionView {
        qty: if !extends(p, side, qty) && is_flat(left) {
            zero()
        } else {
            left
        },
        average_price: averaged(p, side, qty, price),
        realized_pnl: if extends(p, side, qty) {
            p.realized_pnl
        } else {
            sum(p.realized_pnl, closed_profit(p, qty, price))
        },
    }
}

impl Position {
    /// A position before any trade.
    pub fn new() -> (r: Self)
        ensures
            r@ == no_position(),
    {
        Position {
            qty: Double::signed_zero(false),
            average_price: Double::signed_zero(false),
            realized_pnl: Double::signed_zero(false),
        }
    }

    /// What closing the position at `mark` would yield.
    pub fn unrealized_pnl(&self, mark: Double) -> (r: Double)
        ensures
            r@ == unrealized(self@, mark@),
    {
        if flat(self.qty) {
            Double::signed_zero(false)
        } else {
            mark.minus(self.average_price).times(self.qty)
        }
    }

    /// What the position is worth at `mark`, whichever way it goes.
    pub fn exposure(&self, mark: Double) -> (r: Double)
        ensures
            r@ == exposed(self@, mark@),
    {
        self.qty.abs().times(mark)
    }

    /// Books a fill and returns the profit that it realizes.
    pub fn apply_fill(&mut self, side: Side, qty: Double, price: Double) -> (r: Double)
        ensures
            final(self)@ == filled(old(self)@, side, qty@, price@),
            r@ == profit(old(self)@, side, qty@, price@),
    {
        let signed_qty = qty.times(side.sign());
        let old_qty = self.qty;
        let new_qty = old_qty.plus(signed_qty);

        if flat(old_qty) || old_qty.signum().equals(signed_qty.signum()) {
            let total_cost = self.average_price.times(old_qty.abs()).plus(price.times(qty));
            self.qty = new_qty;
            self.average_price = if flat(self.qty) {
                Double::signed_zero(false)
            } else {
                total_cost.over(self.qty.abs())
            };
            return Double::signed_zero(false);
        }

        let closing_qty = old_qty.abs().min(qty);
        let realized = if Double::signed_zero(false).lt(old_qty) {
            price.minus(self.average_price).times(closing_qty)
        } else {
            self.average_price.minus(price).times(closing_qty)
        };

        self.realized_pnl = self.realized_pnl.plus(realized);
        self.qty = new_qty;

        if flat(self.qty) {
            self.qty = Double::signed_zero(false);
            self.average_price = Double::signed_zero(false);
        } else if !old_qty.signum().equals(self.qty.signum()) {
            self.average_price = price;
        }

        realized
    }
}

/// A trade as values.
#[verifier::ext_equal]
pub struct TradeView {
    pub time_index: nat,
    pub symbol: Seq<char>,
    pub side: Side,
    pub qty: Value,
    pub price: Value,
    pub realized: Value,
}

/// A trade that was made.
pub struct Trade {
    pub time_index: u64,
    pub symbol: &'static str,
    pub side: Side,
    pub qty: Double,
    pub price: Double,
    pub realized: Double,
}

impl View for Trade {
    type V = TradeView;

    open spec fn view(&self) -> TradeView {
        TradeView {
            time_index: self.time_index as nat,
            symbol: self.symbol@,
            side: self.side,
            qty: self.qty@,
            price: self.price@,
            realized: self.realized@,
        }
    }
}

/// A ticket's quantity after a step up: one more, up to 250.
pub open spec fn stepped_up(qty: Value) -> Value {
    smaller(sum(qty, whole(1)), whole(250))
}

/// A ticket's quantity after a step down: one less, down to one.
pub open spec fn stepped_down(qty: Value) -> Value {
    larger(difference(qty, whole(1)), whole(1))
}

/// The quantity of the next order.
pub struct OrderTicket {
    pub qty: Double,
}

impl OrderTicket {
    /// A ticket for one unit.
    pub fn new() -> (r: Self)
        ensures
            r.qty@ == whole(1),
    {
        OrderTicket { qty: Double::from_whole(1) }
    }

    /// One more, up to 250.
    pub fn increase(&mut self)
        ensures
            final(self).qty@ == stepped_up(old(self).qty@),
    {
        self.qty = self.qty.plus(Double::from_whole(1)).min(Double::from_whole(250));
    }

    /// One less, down to one.
    pub fn decrease(&mut self)
        ensures
            final(self).qty@ == stepped_down(old(self).qty@),
    {
        self.qty = self.qty.minus(Double::from_whole(1)).max(Double::from_whole(1));
    }
}

} // verus!
