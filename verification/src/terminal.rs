//! The state of the terminal and what keys and time do to it.
use crate::decimal::{cents_text, format_cents, format_rounded, rounded_text};
use crate::double::{absolute, difference, less, product, ratio, sum, whole, zero, Double, Value};
use crate::laws::{
    law_keys_keep_the_state_valid, law_start_is_valid, law_time_keeps_the_state_valid, valid,
};
use crate::market::{
    exposed, filled, flat, is_flat, listed, moved, no_position, profit, stepped_down, stepped_up,
    unrealized, Instrument, InstrumentView, OrderTicket, Position, PositionView, Side, Trade,
    TradeView,
};
use std::collections::VecDeque;
use vstd::arithmetic::div_mod::{lemma_mod_self_0, lemma_small_mod};
use vstd::prelude::*;

verus! {

/// How many trades are kept.
pub const MAX_TRADES: usize = 12;

/// How many lines of the log are kept.
pub const MAX_LOG_LINES: usize = 18;

/// The keys that the terminal tells apart.
#[derive(Clone, Copy, PartialEq, Eq, Structural, Debug)]
pub enum KeyCode {
    Char(char),
    Esc,
    Tab,
    BackTab,
    Left,
    Right,
    Up,
    Down,
    Other,
}

/// The state of the terminal as values.
#[verifier::ext_equal]
pub struct AppView {
    pub instruments: Seq<InstrumentView>,
    pub positions: Seq<PositionView>,
    /// The latest first.
    pub trades: Seq<TradeView>,
    /// The latest first.
    pub log: Seq<Seq<char>>,
    pub ticket: Value,
    pub selected: int,
    pub clock: nat,
}

/// The state of the terminal.
pub struct App {
    pub instruments: Vec<Instrument>,
    pub positions: Vec<Position>,
    pub trades: VecDeque<Trade>,
    pub log: VecDeque<String>,
    pub ticket: OrderTicket,
    pub selected: usize,
    pub clock: u64,
}

/// Instruments as values.
pub open spec fn instrument_views(s: Seq<Instrument>) -> Seq<InstrumentView> {
    s.map_values(|i: Instrument| i@)
}

/// Positions as values.
pub open spec fn position_views(s: Seq<Position>) -> Seq<PositionView> {
    s.map_values(|p: Position| p@)
}

/// Trades as values.
pub open spec fn trade_views(s: Seq<Trade>) -> Seq<TradeView> {
    s.map_values(|t: Trade| t@)
}

/// Texts as values.
pub open spec fn string_views(s: Seq<String>) -> Seq<Seq<char>> {
    s.map_values(|t: String| t@)
}

impl View for App {
    type V = AppView;

    open spec fn view(&self) -> AppView {
        AppView {
            instruments: instrument_views(self.instruments@),
            positions: position_views(self.positions@),
            trades: trade_views(self.trades@),
            log: string_views(self.log@),
            ticket: self.ticket.qty@,
            selected: self.selected as int,
            clock: self.clock as nat,
        }
    }
}

impl AppView {
    /// There is a position for each instrument, and the selection is one of them.
    pub open spec fn consistent(self) -> bool {
        &&& self.positions.len() == self.instruments.len()
        &&& 0 <= self.selected < self.instruments.len()
    }

    /// The selection is one of the instruments.
    pub open spec fn has_selection(self) -> bool {
        0 <= self.selected < self.instruments.len()
    }

    /// The selected instrument.
    pub open spec fn current(self) -> InstrumentView {
        self.instruments[self.selected]
    }

    /// The position in the selected instrument.
    pub open spec fn held(self) -> PositionView {
        self.positions[self.selected]
    }
}

/// A list with one more entry in front, and without its last one if it was full.
pub open spec fn stacked<T>(s: Seq<T>, limit: nat, x: T) -> Seq<T> {
    seq![x] + (if s.len() >= limit {
        s.drop_last()
    } else {
        s
    })
}

/// The state with one more line in the log.
pub open spec fn logged(a: AppView, entry: Seq<char>) -> AppView {
    AppView { log: stacked(a.log, MAX_LOG_LINES as nat, entry), ..a }
}

/// The instruments that the terminal starts with.
pub open spec fn all_listed() -> Seq<InstrumentView> {
    seq![
        listed("BTCUSDT"@, whole(64250), ratio(18, 10000), ratio(12, 1000)),
        listed("ETHUSDT"@, whole(3180), ratio(13, 10000), ratio(10, 1000)),
        listed("SOLUSDT"@, whole(142), ratio(10, 10000), ratio(17, 1000)),
        listed("AAPL"@, ratio(2014, 10), ratio(4, 10000), ratio(4, 1000)),
    ]
}

/// The state that the terminal starts in.
pub open spec fn started() -> AppView {
    AppView {
        instruments: all_listed(),
        positions: seq![no_position(), no_position(), no_position(), no_position()],
        trades: seq![],
        log: seq!["Terminal started. Press b/s to trade, Tab to switch instrument."@],
        ticket: whole(1),
        selected: 0,
        clock: 0,
    }
}

/// The price of an order: slippage works against whoever trades.
pub open spec fn fill_price(side: Side, mark: Value, slippage: Value) -> Value {
    match side {
        Side::Buy => sum(mark, slippage),
        Side::Sell => difference(mark, slippage),
    }
}

/// The line that an order leaves in the log.
pub open spec fn order_line(
    side: Side,
    symbol: Seq<char>,
    qty: Value,
    price: Value,
    after: PositionView,
) -> Seq<char> {
    side.name() + " "@ + symbol + " "@ + rounded_text(qty) + " @ "@ + cents_text(price, false)
        + " | pos "@ + rounded_text(after.qty) + " | rPNL "@ + cents_text(after.realized_pnl, true)
}

/// The state after a market order for the ticket's quantity.
pub open spec fn ordered(a: AppView, side: Side, slippage: Value) -> AppView {
    let price = fill_price(side, a.current().price, slippage);
    let after = filled(a.held(), side, a.ticket, price);
    let trade = TradeView {
        time_index: a.clock,
        symbol: a.current().symbol,
        side,
        qty: a.ticket,
        price,
        realized: profit(a.held(), side, a.ticket, price),
    };
    logged(
        AppView {
            positions: a.positions.update(a.selected, after),
            trades: stacked(a.trades, MAX_TRADES as nat, trade),
            ..a
        },
        order_line(side, a.current().symbol, a.ticket, price, after),
    )
}

/// The side of the order that closes a position of the given quantity.
pub open spec fn closing_side(qty: Value) -> Side {
    if less(zero(), qty) {
        Side::Sell
    } else {
        Side::Buy
    }
}

/// The state after the selected position was closed: an order for the whole position, without a
/// change of the ticket, or only a line in the log where there is nothing to close.
pub open spec fn closed(a: AppView, slippage: Value) -> AppView {
    let qty = a.held().qty;
    if is_flat(qty) {
        logged(a, "Position in "@ + a.current().symbol + " is already flat."@)
    } else {
        AppView {
            ticket: a.ticket,
            ..ordered(AppView { ticket: absolute(qty), ..a }, closing_side(qty), slippage)
        }
    }
}

/// Whether a key ends the session.
pub open spec fn quits(code: KeyCode) -> bool {
    code == KeyCode::Char('q') || code == KeyCode::Esc
}

/// The state after a key. `slippage` is that of the order, where the key places one.
pub open spec fn pressed(a: AppView, code: KeyCode, slippage: Value) -> AppView {
    let n = a.instruments.len();
    match code {
        KeyCode::Tab | KeyCode::Right => AppView {
            selected: if a.selected + 1 == n {
                0
            } else {
                a.selected + 1
            },
            ..a
        },
        KeyCode::BackTab | KeyCode::Left => AppView {
            selected: if a.selected == 0 {
                n - 1
            } else {
                a.selected - 1
            },
            ..a
        },
        KeyCode::Up => AppView { ticket: stepped_up(a.ticket), ..a },
        KeyCode::Down => AppView { ticket: stepped_down(a.ticket), ..a },
        KeyCode::Char(c) => if c == '+' {
            AppView { ticket: stepped_up(a.ticket), ..a }
        } else if c == '-' {
            AppView { ticket: stepped_down(a.ticket), ..a }
        } else if c == 'b' {
            ordered(a, Side::Buy, slippage)
        } else if c == 's' {
            ordered(a, Side::Sell, slippage)
        } else if c == 'c' {
            closed(a, slippage)
        } else {
            a
        },
        KeyCode::Esc | KeyCode::Other => a,
    }
}

/// Whether a key places an order.
pub open spec fn places_order(a: AppView, code: KeyCode) -> bool {
    match code {
        KeyCode::Char(c) => c == 'b' || c == 's' || (c == 'c' && !is_flat(a.held().qty)),
        _ => false,
    }
}

/// The bound below which the slippage of an order in the selected instrument stays.
pub open spec fn slippage_limit(a: AppView) -> Value {
    product(a.current().price, ratio(15, 10000))
}

/// The instruments after a step of time that ends at `clock`.
pub open spec fn all_moved(s: Seq<InstrumentView>, clock: nat, noise: Seq<Value>) -> Seq<
    InstrumentView,
> {
    Seq::new(s.len(), |i: int| moved(s[i], clock, noise[i]))
}

/// The state after a step of time. Every eighth one leaves a line in the log.
pub open spec fn ticked(a: AppView, noise: Seq<Value>) -> AppView {
    let clock = a.clock + 1;
    let next = AppView { clock, instruments: all_moved(a.instruments, clock, noise), ..a };
    if clock % 8 == 0 {
        logged(
            next,
            "MARK "@ + next.current().symbol + " "@ + cents_text(next.current().price, false),
        )
    } else {
        next
    }
}

/// The sum of a list from the front, starting from a negative zero.
pub open spec fn total(s: Seq<Value>) -> Value
    decreases s.len(),
{
    if s.len() == 0 {
        Value::Finite { negative: true, magnitude: 0 }
    } else {
        sum(total(s.drop_last()), s.last())
    }
}

/// The number of positions that have an instrument.
pub open spec fn paired(a: AppView) -> nat {
    if a.positions.len() <= a.instruments.len() {
        a.positions.len()
    } else {
        a.instruments.len()
    }
}

/// What closing each position at its instrument's price would yield.
pub open spec fn unrealized_each(a: AppView) -> Seq<Value> {
    Seq::new(paired(a), |i: int| unrealized(a.positions[i], a.instruments[i].price))
}

/// What each position has yielded.
pub open spec fn realized_each(a: AppView) -> Seq<Value> {
    a.positions.map_values(|p: PositionView| p.realized_pnl)
}

/// What each position is worth, whichever way it goes.
pub open spec fn exposed_each(a: AppView) -> Seq<Value> {
    Seq::new(paired(a), |i: int| exposed(a.positions[i], a.instruments[i].price))
}

/// The values of a list of numbers.
pub open spec fn values(s: Seq<Double>) -> Seq<Value> {
    s.map_values(|x: Double| x@)
}

/// The instruments that the terminal starts with.
fn opening_instruments() -> (instruments: Vec<Instrument>)
    ensures
        instrument_views(instruments@) == all_listed(),
        instruments@.len() == 4,
{
    let btc = Instrument::new(
        "BTCUSDT",
        Double::from_whole(64250),
        Double::from_ratio(18, 10000),
        Double::from_ratio(12, 1000),
    );
    let eth = Instrument::new(
        "ETHUSDT",
        Double::from_whole(3180),
        Double::from_ratio(13, 10000),
        Double::from_ratio(10, 1000),
    );
    let sol = Instrument::new(
        "SOLUSDT",
        Double::from_whole(142),
        Double::from_ratio(10, 10000),
        Double::from_ratio(17, 1000),
    );
    let aapl = Instrument::new(
        "AAPL",
        Double::from_ratio(2014, 10),
        Double::from_ratio(4, 10000),
        Double::from_ratio(4, 1000),
    );
    let ghost views = seq![btc@, eth@, sol@, aapl@];
    let mut instruments: Vec<Instrument> = Vec::new();
    instruments.push(btc);
    instruments.push(eth);
    instruments.push(sol);
    instruments.push(aapl);
    proof {
        assert(instrument_views(instruments@) =~= views);
        assert(views == all_listed());
    }
    instruments
}

impl App {
    /// A terminal with four instruments and nothing traded.
    pub fn new() -> (r: Self)
        ensures
            r@ == started(),
            r@.consistent(),
            valid(r@),
    {
        let instruments = opening_instruments();
        let mut positions: Vec<Position> = Vec::new();
        let mut i: usize = 0;
        while i < instruments.len()
            invariant
                i <= instruments@.len() == 4,
                positions@.len() == i,
                forall|j: int| 0 <= j < i ==> (#[trigger] positions@[j])@ == no_position(),
            decreases instruments@.len() - i,
        {
            positions.push(Position::new());
            i = i + 1;
        }

        let mut log: VecDeque<String> = VecDeque::new();
        log.push_front(
            "Terminal started. Press b/s to trade, Tab to switch instrument.".to_string(),
        );

        let r = App {
            instruments,
            positions,
            trades: VecDeque::new(),
            log,
            ticket: OrderTicket::new(),
            selected: 0,
            clock: 0,
        };
        proof {
            assert(r@.positions =~= started().positions);
            assert(r@.trades =~= started().trades);
            assert(r@.log =~= started().log);
            law_start_is_valid();
        }
        r
    }

    /// The selected instrument.
    pub fn current_instrument(&self) -> (r: &Instrument)
        requires
            self@.has_selection(),
        ensures
            r@ == self@.current(),
            *r == self.instruments@[self.selected as int],
    {
        &self.instruments[self.selected]
    }

    /// Adds a line to the log.
    pub fn push_log(&mut self, entry: String)
        ensures
            final(self)@ == logged(old(self)@, entry@),
    {
        if self.log.len() >= MAX_LOG_LINES {
            self.log.pop_back();
        }
        self.log.push_front(entry);
        assert(final(self)@.log =~= logged(old(self)@, entry@).log);
    }

    /// Trades the ticket's quantity of the selected instrument.
    pub fn place_market_order(&mut self, side: Side, slippage: Double)
        requires
            old(self)@.consistent(),
        ensures
            final(self)@ == ordered(old(self)@, side, slippage@),
    {
        let symbol = self.instruments[self.selected].symbol;
        let mark_price = self.instruments[self.selected].price;
        let price = match side {
            Side::Buy => mark_price.plus(slippage),
            Side::Sell => mark_price.minus(slippage),
        };
        let qty = self.ticket.qty;
        let selected = self.selected;
        let realized = self.positions[selected].apply_fill(side, qty, price);
        let position_qty = self.positions[selected].qty;
        let realized_pnl = self.positions[selected].realized_pnl;

        if self.trades.len() >= MAX_TRADES {
            self.trades.pop_back();
        }
        self.trades.push_front(
            Trade { time_index: self.clock, symbol, side, qty, price, realized },
        );

        let mut line = side.label().to_string();
        line.append(" ");
        line.append(symbol);
        line.append(" ");
        line.append(format_rounded(qty).as_str());
        line.append(" @ ");
        line.append(format_cents(price, false).as_str());
        line.append(" | pos ");
        line.append(format_rounded(position_qty).as_str());
        line.append(" | rPNL ");
        line.append(format_cents(realized_pnl, true).as_str());
        proof {
            let want = ordered(old(self)@, side, slippage@);
            assert(self@.positions =~= want.positions);
            assert(self@.trades =~= want.trades);
            assert(self@.instruments =~= want.instruments);
        }
        self.push_log(line);
    }

    /// Trades away what is held of the selected instrument.
    pub fn close_position(&mut self, slippage: Double)
        requires
            old(self)@.consistent(),
        ensures
            final(self)@ == closed(old(self)@, slippage@),
    {
        let qty = self.positions[self.selected].qty;
        if flat(qty) {
            let mut line = "Position in ".to_string();
            line.append(self.current_instrument().symbol);
            line.append(" is already flat.");
            self.push_log(line);
            return;
        }

        let side = if Double::signed_zero(false).lt(qty) {
            Side::Sell
        } else {
            Side::Buy
        };
        let previous_qty = self.ticket.qty;
        self.ticket.qty = qty.abs();
        self.place_market_order(side, slippage);
        self.ticket.qty = previous_qty;
    }

    /// What a key needs before it is handled: the bound below which the slippage of its order is
    /// to be drawn, or nothing where it places no order.
    pub fn slippage_bound(&self, code: KeyCode) -> (r: Option<Double>)
        requires
            self@.consistent(),
        ensures
            r is Some <==> places_order(self@, code),
            r matches Some(x) ==> x@ == slippage_limit(self@),
    {
        let order = match code {
            KeyCode::Char('b') | KeyCode::Char('s') => true,
            KeyCode::Char('c') => !flat(self.positions[self.selected].qty),
            _ => false,
        };
        if order {
            Some(self.current_instrument().price.times(Double::from_ratio(15, 10000)))
        } else {
            None
        }
    }

    /// Handles a key. Returns whether the session goes on. `slippage` is that of the order, where
    /// the key places one, and is not used otherwise.
    pub fn handle_key(&mut self, code: KeyCode, slippage: Double) -> (r: bool)
        requires
            old(self)@.consistent(),
        ensures
            r == !quits(code),
            final(self)@ == pressed(old(self)@, code, slippage@),
            valid(old(self)@) ==> valid(final(self)@),
    {
        proof {
            if valid(self@) {
                law_keys_keep_the_state_valid(self@, code, slippage@);
            }
        }
        match code {
            KeyCode::Char('q') | KeyCode::Esc => return false,
            KeyCode::Tab | KeyCode::Right => {
                let n = self.instruments.len();
                proof {
                    if self.selected + 1 == n {
                        lemma_mod_self_0(n as int);
                    } else {
                        lemma_small_mod((self.selected + 1) as nat, n as nat);
                    }
                }
                self.selected = (self.selected + 1) % n;
            },
            KeyCode::BackTab | KeyCode::Left => {
                self.selected = if self.selected == 0 {
                    self.instruments.len() - 1
                } else {
                    self.selected - 1
                };
            },
            KeyCode::Up | KeyCode::Char('+') => self.ticket.increase(),
            KeyCode::Down | KeyCode::Char('-') => self.ticket.decrease(),
            KeyCode::Char('b') => self.place_market_order(Side::Buy, slippage),
            KeyCode::Char('s') => self.place_market_order(Side::Sell, slippage),
            KeyCode::Char('c') => self.close_position(slippage),
            _ => {},
        }
        true
    }

    /// Lets one step of time pass. `noise` holds the random part of each instrument's growth.
    pub fn on_tick(&mut self, noise: &Vec<Double>)
        requires
            old(self).clock < u64::MAX,
            (old(self).clock + 1) % 8 == 0 ==> old(self)@.has_selection(),
            noise@.len() == old(self)@.instruments.len(),
        ensures
            final(self)@ == ticked(old(self)@, values(noise@)),
            valid(old(self)@) ==> valid(final(self)@),
    {
        proof {
            if valid(self@) {
                law_time_keeps_the_state_valid(self@, values(noise@));
            }
        }
        self.clock = self.clock + 1;
        let clock = self.clock;
        let n = self.instruments.len();
        let mut i: usize = 0;
        let ghost start = old(self)@.instruments;
        while i < n
            invariant
                i <= n == self.instruments@.len(),
                noise@.len() == n,
                start == old(self)@.instruments,
                start.len() == n,
                clock == self.clock == old(self).clock + 1,
                self.positions == old(self).positions,
                self.trades == old(self).trades,
                self.log == old(self).log,
                self.ticket == old(self).ticket,
                self.selected == old(self).selected,
                forall|j: int|
                    0 <= j < i ==> (#[trigger] self.instruments@[j])@ == moved(
                        start[j],
                        clock as nat,
                        noise@[j]@,
                    ),
                forall|j: int| i <= j < n ==> (#[trigger] self.instruments@[j])@ == start[j],
            decreases n - i,
        {
            let x = noise[i];
            self.instruments[i].tick(clock, x);
            i = i + 1;
        }
        proof {
            assert(self@.instruments =~= all_moved(start, clock as nat, values(noise@)));
        }
        if self.clock % 8 == 0 {
            let mut line = "MARK ".to_string();
            line.append(self.current_instrument().symbol);
            line.append(" ");
            line.append(format_cents(self.current_instrument().price, false).as_str());
            self.push_log(line);
        }
    }

    /// What closing all positions would yield.
    pub fn total_unrealized(&self) -> (r: Double)
        ensures
            r@ == total(unrealized_each(self@)),
    {
        let mut r = Double::signed_zero(true);
        let mut i: usize = 0;
        let ghost s = unrealized_each(self@);
        while i < self.positions.len() && i < self.instruments.len()
            invariant
                i <= paired(self@),
                s == unrealized_each(self@),
                r@ == total(s.take(i as int)),
            decreases self.positions@.len() - i,
        {
            r = r.plus(self.positions[i].unrealized_pnl(self.instruments[i].price));
            assert(s.take(i + 1).drop_last() =~= s.take(i as int));
            i = i + 1;
        }
        assert(s.take(i as int) =~= s);
        r
    }

    /// What all trades have yielded.
    pub fn total_realized(&self) -> (r: Double)
        ensures
            r@ == total(realized_each(self@)),
    {
        let mut r = Double::signed_zero(true);
        let mut i: usize = 0;
        let ghost s = realized_each(self@);
        while i < self.positions.len()
            invariant
                i <= self.positions@.len(),
                s == realized_each(self@),
                r@ == total(s.take(i as int)),
            decreases self.positions@.len() - i,
        {
            r = r.plus(self.positions[i].realized_pnl);
            assert(s.take(i + 1).drop_last() =~= s.take(i as int));
            i = i + 1;
        }
        assert(s.take(i as int) =~= s);
        r
    }

    /// What all positions are worth together, whichever way each goes.
    pub fn gross_exposure(&self) -> (r: Double)
        ensures
            r@ == total(exposed_each(self@)),
    {
        let mut r = Double::signed_zero(true);
        let mut i: usize = 0;
        let ghost s = exposed_each(self@);
        while i < self.positions.len() && i < self.instruments.len()
            invariant
                i <= paired(self@),
                s == exposed_each(self@),
                r@ == total(s.take(i as int)),
            decreases self.positions@.len() - i,
        {
            r = r.plus(self.positions[i].exposure(self.instruments[i].price));
            assert(s.take(i + 1).drop_last() =~= s.take(i as int));
            i = i + 1;
        }
        assert(s.take(i as int) =~= s);
        r
    }
}

} // verus!
