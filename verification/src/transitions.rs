//! What each step of the terminal changes, and what it leaves as it was.
use crate::accounting::{course, size};
use crate::accuracy::{law_ratios_are_accurate, law_sums_are_accurate, near};
use crate::conduct::law_fractions_of_prices_are_accurate;
use crate::decimal::{cents_text, rounded_text};
use crate::double::{negated, ratio, units, whole, zero, Value};
use crate::exactness::lemma_whole_exact;
use crate::laws::{lemma_ticket_steps, quantity, sound, valid};
use crate::market::{
    filled, is_flat, listed, moved, profit, stepped_down, stepped_up, InstrumentView, Side,
};
use crate::rounding::lemma_pow2_monotone;
use crate::session::{time_left, volatilities, TICK_NANOS};
use crate::terminal::{
    closed, logged, ordered, places_order, pressed, quits, slippage_limit, started, ticked, AppView,
    KeyCode,
};
use vstd::arithmetic::power2::{lemma2_to64, lemma2_to64_rest, lemma_pow2_pos, pow2};
use vstd::prelude::*;

verus! {

/// A new instrument opens the day at its price, and its history shows that price 120 times.
pub proof fn law_instruments_open_at_their_price(
    symbol: Seq<char>,
    price: Value,
    drift: Value,
    volatility: Value,
    j: int,
)
    requires
        0 <= j < 120,
    ensures
        ({
            let i = listed(symbol, price, drift, volatility);
            &&& i.symbol == symbol
            &&& i.price == price
            &&& i.drift == drift
            &&& i.volatility == volatility
            &&& i.day_open == price
            &&& i.history.len() == 120
            &&& i.history[j] == (whole(j as nat), price)
        }),
{
    reveal(listed);
}

/// Whether an instrument has a name, a price of `n` tenths, a drift of `d` ten-thousandths and a
/// volatility of `v` thousandths, and is new.
pub open spec fn opens_at(i: InstrumentView, symbol: Seq<char>, n: int, d: int, v: int) -> bool {
    let w = pow2(1074) as int;
    &&& i.symbol == symbol
    &&& near(units(i.price) * 10, n * w, 53)
    &&& near(units(i.drift) * 10000, d * w, 53)
    &&& near(units(i.volatility) * 1000, v * w, 53)
    &&& i.day_open == i.price
    &&& i.history.len() == 120
    &&& forall|j: int| 0 <= j < 120 ==> #[trigger] i.history[j] == (whole(j as nat), i.price)
}

proof fn lemma_listed_opens(symbol: Seq<char>, n: nat, e: nat, d: nat, v: nat)
    requires
        0 < n <= 1000000,
        e == 1 || e == 10,
        0 < d <= 10000,
        0 < v <= 1000,
    ensures
        opens_at(
            listed(symbol, ratio(n, e), ratio(d, 10000), ratio(v, 1000)),
            symbol,
            if e == 1 {
                (10 * n) as int
            } else {
                n as int
            },
            d as int,
            v as int,
        ),
{
    reveal(listed);
    lemma2_to64();
    lemma_pow2_monotone(20, 1000);
    law_ratios_are_accurate(n, e);
    law_ratios_are_accurate(d, 10000);
    law_ratios_are_accurate(v, 1000);
    let w = pow2(1074) as int;
    if e == 1 {
        let x = units(ratio(n, 1));
        let f = pow2(53) as int;
        assert(n * w >= 0) by (nonlinear_arith)
            requires
                w >= 0,
        ;
        assert(f * size(x * 10 - (10 * n) * w) <= size((10 * n) * w)) by (nonlinear_arith)
            requires
                f * size(x * 1 - n * w) <= size(n * w),
        ;
    }
}

/// The terminal starts with four instruments, nothing held, nothing traded, a ticket for one unit,
/// the first instrument selected and the clock at zero.
pub proof fn law_start()
    ensures
        ({
            let a = started();
            &&& a.instruments.len() == 4
            &&& opens_at(a.instruments[0], "BTCUSDT"@, 642500, 18, 12)
            &&& opens_at(a.instruments[1], "ETHUSDT"@, 31800, 13, 10)
            &&& opens_at(a.instruments[2], "SOLUSDT"@, 1420, 10, 17)
            &&& opens_at(a.instruments[3], "AAPL"@, 2014, 4, 4)
            &&& a.positions.len() == 4
            &&& forall|i: int|
                0 <= i < 4 ==> {
                    &&& (#[trigger] a.positions[i]).qty == zero()
                    &&& a.positions[i].average_price == zero()
                    &&& a.positions[i].realized_pnl == zero()
                }
            &&& a.trades.len() == 0
            &&& a.ticket == quantity(1)
            &&& a.selected == 0
            &&& a.clock == 0
            &&& a.log == seq![
                "Terminal started. Press b/s to trade, Tab to switch instrument."@,
            ]
        }),
{
    lemma2_to64_rest();
    lemma_whole_exact(1);
    lemma_listed_opens("BTCUSDT"@, 64250, 1, 18, 12);
    lemma_listed_opens("ETHUSDT"@, 3180, 1, 13, 10);
    lemma_listed_opens("SOLUSDT"@, 142, 1, 10, 17);
    lemma_listed_opens("AAPL"@, 2014, 10, 4, 4);
}

/// A step of time drops the oldest point of a full history, moves the others up, and puts the new
/// price at the end, at the time that the clock shows. It changes nothing else of an instrument
/// but the price.
pub proof fn law_histories_move_on(i: InstrumentView, clock: nat, noise: Value, j: int)
    requires
        0 <= j < i.history.len(),
    ensures
        ({
            let b = moved(i, clock, noise);
            &&& b.symbol == i.symbol
            &&& b.drift == i.drift
            &&& b.volatility == i.volatility
            &&& b.day_open == i.day_open
            &&& b.history.last() == (whole(clock), b.price)
            &&& i.history.len() >= 120 ==> {
                &&& b.history.len() == i.history.len()
                &&& j > 0 ==> b.history[j - 1] == i.history[j]
            }
            &&& i.history.len() < 120 ==> {
                &&& b.history.len() == i.history.len() + 1
                &&& b.history[j] == i.history[j]
            }
        }),
{
}

/// A step of time moves every instrument, each by its own noise, and every eighth one marks the
/// new price of the selected instrument in the log. It leaves all else as it was.
pub proof fn law_time_moves_every_instrument(a: AppView, noise: Seq<Value>, i: int)
    requires
        0 <= i < a.instruments.len(),
        noise.len() == a.instruments.len(),
    ensures
        ({
            let b = ticked(a, noise);
            let current = b.instruments[a.selected];
            &&& b.clock == a.clock + 1
            &&& b.instruments.len() == a.instruments.len()
            &&& b.instruments[i] == moved(a.instruments[i], a.clock + 1, noise[i])
            &&& b.positions == a.positions
            &&& b.trades == a.trades
            &&& b.ticket == a.ticket
            &&& b.selected == a.selected
            &&& (a.clock + 1) % 8 != 0 ==> b.log == a.log
            &&& (a.clock + 1) % 8 == 0 ==> follows(
                a.log,
                b.log,
                "MARK "@ + current.symbol + " "@ + cents_text(current.price, false),
                18,
            )
        }),
{
}

/// Whether a list is another one with an entry in front, of which at most `limit` are kept.
pub open spec fn follows<T>(before: Seq<T>, after: Seq<T>, entry: T, limit: nat) -> bool {
    &&& after.len() > 0
    &&& after[0] == entry
    &&& before.len() < limit ==> after.len() == before.len() + 1
    &&& before.len() >= limit ==> after.len() == before.len()
    &&& forall|i: int| 0 < i < after.len() ==> #[trigger] after[i] == before[i - 1]
}

/// A line that is added to the log comes first, at most 18 are kept, and nothing else changes.
pub proof fn law_the_log_keeps_the_latest(a: AppView, entry: Seq<char>)
    ensures
        ({
            let b = logged(a, entry);
            &&& b == AppView { log: b.log, ..a }
            &&& follows(a.log, b.log, entry, 18)
        }),
{
}

/// An order is filled at the price of the selected instrument, plus the slippage for a purchase and
/// less the slippage for a sale, to one part in `2^53`.
pub proof fn law_orders_fill_at_the_mark(a: AppView, side: Side, slippage: Value)
    requires
        a.consistent(),
        a.current().price is Finite,
        slippage is Finite,
        ordered(a, side, slippage).trades[0].price is Finite,
    ensures
        near(
            units(ordered(a, side, slippage).trades[0].price),
            units(a.instruments[a.selected].price) + course(side) * units(slippage),
            53,
        ),
{
    match side {
        Side::Buy => {
            law_sums_are_accurate(a.current().price, slippage);
        },
        Side::Sell => {
            law_sums_are_accurate(a.current().price, negated(slippage));
        },
    }
}

/// An order for the ticket's quantity enters the list of trades, at the time that the clock shows,
/// and the position in the selected instrument is filled with that trade. It leaves all else as it
/// was but the log.
pub proof fn law_orders_are_booked(a: AppView, side: Side, slippage: Value, i: int)
    requires
        a.consistent(),
        0 <= i < a.positions.len(),
    ensures
        ({
            let b = ordered(a, side, slippage);
            let t = b.trades[0];
            let before = a.positions[a.selected];
            &&& t.time_index == a.clock
            &&& t.symbol == a.instruments[a.selected].symbol
            &&& t.side == side
            &&& t.qty == a.ticket
            &&& t.realized == profit(before, t.side, t.qty, t.price)
            &&& follows(a.trades, b.trades, t, 12)
            &&& b.positions.len() == a.positions.len()
            &&& b.positions[i] == if i == a.selected {
                filled(before, t.side, t.qty, t.price)
            } else {
                a.positions[i]
            }
            &&& b.instruments == a.instruments
            &&& b.ticket == a.ticket
            &&& b.selected == a.selected
            &&& b.clock == a.clock
        }),
{
}

/// The line that an order leaves in the log names the side, the instrument, the quantity and the
/// price of the trade, and then the quantity and the profit so far that the position has now.
pub proof fn law_orders_are_logged(a: AppView, side: Side, slippage: Value)
    requires
        a.consistent(),
    ensures
        ({
            let b = ordered(a, side, slippage);
            let t = b.trades[0];
            let p = b.positions[b.selected];
            let name = match t.side {
                Side::Buy => "BUY"@,
                Side::Sell => "SELL"@,
            };
            follows(
                a.log,
                b.log,
                name + " "@ + t.symbol + " "@ + rounded_text(t.qty) + " @ "@ + cents_text(
                    t.price,
                    false,
                ) + " | pos "@ + rounded_text(p.qty) + " | rPNL "@ + cents_text(
                    p.realized_pnl,
                    true,
                ),
                18,
            )
        }),
{
}

/// Closing a position that is none leaves a line in the log and changes nothing else.
pub proof fn law_nothing_is_closed_twice(a: AppView, slippage: Value)
    requires
        is_flat(a.positions[a.selected].qty),
    ensures
        ({
            let b = closed(a, slippage);
            &&& b == AppView { log: b.log, ..a }
            &&& follows(
                a.log,
                b.log,
                "Position in "@ + a.instruments[a.selected].symbol + " is already flat."@,
                18,
            )
        }),
{
}

/// Closing a position trades all of it, against its direction, as an order would, and leaves the
/// ticket as it was.
pub proof fn law_closing_trades_the_whole_position(a: AppView, slippage: Value)
    requires
        a.consistent(),
        a.positions[a.selected].qty is Finite,
        !is_flat(a.positions[a.selected].qty),
    ensures
        ({
            let b = closed(a, slippage);
            let t = b.trades[0];
            let q = units(a.positions[a.selected].qty);
            &&& b == AppView {
                ticket: a.ticket,
                ..ordered(AppView { ticket: t.qty, ..a }, t.side, slippage)
            }
            &&& t.qty is Finite
            &&& units(t.qty) == size(q)
            &&& q > 0 ==> t.side == Side::Sell
            &&& q < 0 ==> t.side == Side::Buy
            &&& q != 0
        }),
{
    lemma_pow2_pos(1022);
}

/// What each key does. Those that switch go round, the arrows up and down step the ticket, and keys
/// without a meaning change nothing.
pub proof fn law_keys(a: AppView, code: KeyCode, slippage: Value)
    requires
        a.has_selection(),
    ensures
        ({
            let b = pressed(a, code, slippage);
            let n = a.instruments.len();
            let next = code == KeyCode::Tab || code == KeyCode::Right;
            let last = code == KeyCode::BackTab || code == KeyCode::Left;
            let up = code == KeyCode::Up || code == KeyCode::Char('+');
            let down = code == KeyCode::Down || code == KeyCode::Char('-');
            let buy = code == KeyCode::Char('b');
            let sell = code == KeyCode::Char('s');
            let close = code == KeyCode::Char('c');
            &&& next ==> b == AppView { selected: b.selected, ..a }
            &&& next && a.selected + 1 < n ==> b.selected == a.selected + 1
            &&& next && a.selected + 1 == n ==> b.selected == 0
            &&& last ==> b == AppView { selected: b.selected, ..a }
            &&& last && a.selected > 0 ==> b.selected == a.selected - 1
            &&& last && a.selected == 0 ==> b.selected == n - 1
            &&& up ==> b == AppView { ticket: stepped_up(a.ticket), ..a }
            &&& down ==> b == AppView { ticket: stepped_down(a.ticket), ..a }
            &&& buy ==> b == ordered(a, Side::Buy, slippage)
            &&& sell ==> b == ordered(a, Side::Sell, slippage)
            &&& close ==> b == closed(a, slippage)
            &&& !next && !last && !up && !down && !buy && !sell && !close ==> b == a
            &&& quits(code) <==> code == KeyCode::Char('q') || code == KeyCode::Esc
            &&& places_order(a, code) <==> buy || sell || (close && !is_flat(
                a.positions[a.selected].qty,
            ))
        }),
{
}

/// The arrows up and down move a ticket of a whole number of units by one, between 1 and 250, and
/// change nothing else.
pub proof fn law_arrows_step_the_ticket(a: AppView, slippage: Value, k: int)
    requires
        a.ticket == quantity(k),
        1 <= k <= 250,
    ensures
        pressed(a, KeyCode::Up, slippage) == (AppView {
            ticket: quantity(
                if k < 250 {
                    k + 1
                } else {
                    250
                },
            ),
            ..a
        }),
        pressed(a, KeyCode::Down, slippage) == (AppView {
            ticket: quantity(
                if k > 1 {
                    k - 1
                } else {
                    1
                },
            ),
            ..a
        }),
{
    lemma_ticket_steps(k);
}

/// A key places an order exactly if it puts a trade in front of the list.
pub proof fn law_orders_show_in_the_trades(a: AppView, code: KeyCode, slippage: Value)
    requires
        a.consistent(),
        a.trades.len() < 12,
    ensures
        places_order(a, code) <==> pressed(a, code, slippage).trades.len() == a.trades.len() + 1,
        !places_order(a, code) ==> {
            &&& pressed(a, code, slippage).trades == a.trades
            &&& pressed(a, code, slippage).positions == a.positions
        },
{
}

/// The bound of the slippage is 15 ten-thousandths of the price of the selected instrument, to one
/// part in `2^51`.
pub proof fn law_slippage_stays_below_a_share_of_the_price(a: AppView)
    requires
        valid(a),
        a.current().price is Finite,
        a.current().price->magnitude < pow2(2090),
    ensures
        slippage_limit(a) is Finite,
        near(units(slippage_limit(a)) * 10000, units(a.instruments[a.selected].price) * 15, 51),
{
    assert(sound(a.instruments[a.selected], a.clock));
    law_fractions_of_prices_are_accurate(a.current().price, 15, 10000);
}

/// The wait for input ends when the next step of the market is due, 180 milliseconds after the last
/// one, and the noise of each instrument is bounded by its volatility.
pub proof fn law_waits_end_with_the_next_step(elapsed: nat, a: AppView, i: int)
    requires
        0 <= i < a.instruments.len(),
    ensures
        TICK_NANOS == 180 * 1000000,
        elapsed < 180 * 1000000 ==> elapsed + time_left(elapsed) == 180 * 1000000,
        elapsed >= 180 * 1000000 ==> time_left(elapsed) == 0,
        volatilities(a).len() == a.instruments.len(),
        volatilities(a)[i] == a.instruments[i].volatility,
{
}

} // verus!
