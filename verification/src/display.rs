//! What can be read off the panels.
use crate::accounting::size;
use crate::accuracy::{
    law_products_are_accurate, law_ratios_are_accurate, law_sums_are_accurate,
    lemma_product_is_finite, lemma_sum_is_finite, near,
};
use crate::conduct::{
    law_fractions_of_prices_are_accurate, lemma_fraction_error, lemma_nothing_times, lemma_one,
    lemma_price_is_multiple, lemma_tenth,
};
use crate::decimal::{cents_text, digits_padded, rounded_text};
use crate::double::{difference, negated, product, ratio, sum, units, Value};
use crate::exactness::lemma_whole_exact;
use crate::laws::{is_price, lemma_extremes, quantity, sound, valid};
use crate::market::{change, unrealized, Color, Side, TradeView};
use crate::panels::{
    chart_end, chart_start, header_line, help_line, highest, hue, lowest, margin, position_table, price_chart,
    ticket_lines, trade_line, watch_table,
};
use crate::reading::{
    digits_read, law_amounts_are_told_apart, law_amounts_keep_their_order, law_amounts_read_back,
    law_counts_read_back, law_quantities_read_back, number_read, shows_cents, shows_whole,
};
use crate::rounding::lemma_pow2_monotone;
use crate::terminal::{exposed_each, realized_each, total, unrealized_each, AppView};
use crate::totals::valued;
use vstd::arithmetic::power2::{
    lemma2_to64, lemma2_to64_rest, lemma_pow2_adds, lemma_pow2_pos, pow2,
};
use vstd::prelude::*;

verus! {

/// Whether a text is an amount to the nearest hundredth, with a sign in front.
pub open spec fn shows_gain(s: Seq<char>, v: Value) -> bool {
    &&& shows_cents(s, v)
    &&& s[0] == '+' || s[0] == '-'
    &&& s[0] == '+' ==> units(v) >= 0
    &&& s[0] == '-' ==> units(v) <= 0
}

/// Whether a colour tells the sign of an amount.
pub open spec fn tells_sign(c: Option<Color>, v: Value) -> bool {
    &&& units(v) > 0 ==> c == Some(Color::Green)
    &&& units(v) < 0 ==> c == Some(Color::Red)
    &&& units(v) == 0 ==> c == Some(Color::Gray)
}

proof fn lemma_gain(v: Value)
    requires
        v is Finite,
    ensures
        shows_gain(cents_text(v, true), v),
        tells_sign(Some(hue(v)), v),
{
    law_amounts_read_back(v, true);
}

/// A text behind a label.
proof fn lemma_behind(label: Seq<char>, s: Seq<char>)
    ensures
        (label + s).skip(label.len() as int) == s,
{
    assert((label + s).skip(label.len() as int) =~= s);
}

/// The header names the selected instrument and shows its price, its change, and the three totals
/// over all positions, gains with their sign and in its colour.
pub proof fn law_header_shows_the_totals(a: AppView)
    requires
        a.has_selection(),
        a.current().price is Finite,
        change(a.current()) is Finite,
        total(realized_each(a)) is Finite,
        total(unrealized_each(a)) is Finite,
        total(exposed_each(a)) is Finite,
    ensures
        ({
            let l = header_line(a);
            let i = a.instruments[a.selected];
            let n = i.symbol.len() as int;
            &&& l.len() == 11
            &&& l[0].text == " Rust Trading Terminal "@
            &&& l[1].text == "  "@ && l[3].text == "  "@ && l[5].text == "  "@
            &&& l[7].text == "  "@ && l[9].text == "  "@
            &&& l[2].style.fg == Some(Color::White) && l[2].style.bold
            &&& l[10].style.fg == Some(Color::Yellow)
            &&& l[2].text.take(n) == i.symbol
            &&& l[2].text[n] == ' '
            &&& shows_cents(l[2].text.skip(n + 1), i.price)
            &&& l[4].text.take(3) == "d% "@
            &&& shows_gain(l[4].text.skip(3), change(i))
            &&& tells_sign(l[4].style.fg, change(i))
            &&& l[6].text.take(5) == "rPNL "@
            &&& shows_gain(l[6].text.skip(5), total(realized_each(a)))
            &&& tells_sign(l[6].style.fg, total(realized_each(a)))
            &&& l[8].text.take(5) == "uPNL "@
            &&& shows_gain(l[8].text.skip(5), total(unrealized_each(a)))
            &&& tells_sign(l[8].style.fg, total(unrealized_each(a)))
            &&& l[10].text.take(6) == "gross "@
            &&& shows_cents(l[10].text.skip(6), total(exposed_each(a)))
        }),
{
    reveal_strlit(" ");
    reveal_strlit("d% ");
    reveal_strlit("rPNL ");
    reveal_strlit("uPNL ");
    reveal_strlit("gross ");
    let l = header_line(a);
    let i = a.instruments[a.selected];
    lemma_behind(i.symbol + " "@, cents_text(i.price, false));
    lemma_behind("d% "@, cents_text(change(i), true));
    lemma_behind("rPNL "@, cents_text(total(realized_each(a)), true));
    lemma_behind("uPNL "@, cents_text(total(unrealized_each(a)), true));
    lemma_behind("gross "@, cents_text(total(exposed_each(a)), false));
    law_amounts_read_back(i.price, false);
    law_amounts_read_back(total(exposed_each(a)), false);
    lemma_gain(change(i));
    lemma_gain(total(realized_each(a)));
    lemma_gain(total(unrealized_each(a)));
    assert(l[2].text.take(i.symbol.len() as int) =~= i.symbol);
    assert(l[4].text.take(3) =~= "d% "@);
    assert(l[6].text.take(5) =~= "rPNL "@);
    assert(l[8].text.take(5) =~= "uPNL "@);
    assert(l[10].text.take(6) =~= "gross "@);
}

/// The watchlist has a row for each instrument, with its name, its price and its change in percent,
/// and only that of the selected one stands out.
pub proof fn law_watchlist_shows_every_instrument(a: AppView, i: int)
    requires
        0 <= i < a.instruments.len(),
        a.instruments[i].price is Finite,
        change(a.instruments[i]) is Finite,
    ensures
        ({
            let t = watch_table(a);
            let r = t.rows[i];
            &&& t.title == "Watchlist"@
            &&& t.header.cells == seq!["Symbol"@, "Last"@, "Change"@]
            &&& t.widths == seq![10u16, 10u16, 10u16]
            &&& t.rows.len() == a.instruments.len()
            &&& r.cells.len() == 3
            &&& r.cells[0] == a.instruments[i].symbol
            &&& shows_cents(r.cells[1], a.instruments[i].price)
            &&& r.cells[2].last() == '%'
            &&& shows_gain(r.cells[2].drop_last(), change(a.instruments[i]))
            &&& r.style.bold == (i == a.selected)
            &&& i == a.selected ==> r.style.fg == Some(Color::Black) && r.style.bg == Some(
                Color::LightCyan,
            )
            &&& i != a.selected ==> r.style.fg is None && r.style.bg is None
        }),
{
    reveal_strlit("%");
    let c = change(a.instruments[i]);
    law_amounts_read_back(a.instruments[i].price, false);
    lemma_gain(c);
    assert((cents_text(c, true) + "%"@).drop_last() =~= cents_text(c, true));
}

/// The table of positions has a row for each position with an instrument, with the instrument's
/// name, the quantity, the average price, what closing the position at the instrument's price would
/// yield, and what the position has yielded.
pub proof fn law_positions_show_every_position(a: AppView, i: int)
    requires
        0 <= i < valued(a),
        a.positions[i].qty is Finite,
        a.positions[i].average_price is Finite,
        a.positions[i].realized_pnl is Finite,
        unrealized(a.positions[i], a.instruments[i].price) is Finite,
    ensures
        ({
            let t = position_table(a);
            let c = t.rows[i].cells;
            let p = a.positions[i];
            &&& t.title == "Positions"@
            &&& t.header.cells == seq!["Symbol"@, "Qty"@, "Avg"@, "uPNL"@, "rPNL"@]
            &&& t.widths == seq![9u16, 7u16, 10u16, 10u16, 10u16]
            &&& t.rows.len() == valued(a)
            &&& c.len() == 5
            &&& c[0] == a.instruments[i].symbol
            &&& shows_whole(c[1], p.qty)
            &&& shows_cents(c[2], p.average_price)
            &&& shows_gain(c[3], unrealized(p, a.instruments[i].price))
            &&& shows_gain(c[4], p.realized_pnl)
        }),
{
    let p = a.positions[i];
    law_quantities_read_back(p.qty);
    law_amounts_read_back(p.average_price, false);
    lemma_gain(unrealized(p, a.instruments[i].price));
    lemma_gain(p.realized_pnl);
}

/// What the table shows as yielded by a position does not depend on any price, is the same wherever
/// the position has yielded the same, and differs where that differs by more than a hundredth.
pub proof fn law_realized_profits_are_shown_as_they_are(a: AppView, b: AppView, i: int, j: int)
    requires
        0 <= i < valued(a),
        0 <= j < valued(b),
    ensures
        ({
            let x = position_table(a).rows[i].cells[4];
            let y = position_table(b).rows[j].cells[4];
            let u = a.positions[i].realized_pnl;
            let v = b.positions[j].realized_pnl;
            &&& u == v ==> x == y
            &&& u is Finite && v is Finite && 100 * size(units(u) - units(v)) > pow2(1074) ==> x
                != y
        }),
{
    let u = a.positions[i].realized_pnl;
    let v = b.positions[j].realized_pnl;
    if u is Finite && v is Finite {
        if 100 * (units(v) - units(u)) > pow2(1074) {
            law_amounts_are_told_apart(u, v, true);
        } else if 100 * (units(u) - units(v)) > pow2(1074) {
            law_amounts_are_told_apart(v, u, true);
        }
    }
}

/// What the table shows as open for a position is the same wherever position and price are the
/// same, and differs where the amounts differ by more than a hundredth.
pub proof fn law_open_profits_are_shown_as_they_are(a: AppView, b: AppView, i: int, j: int)
    requires
        0 <= i < valued(a),
        0 <= j < valued(b),
    ensures
        ({
            let x = position_table(a).rows[i].cells[3];
            let y = position_table(b).rows[j].cells[3];
            let u = unrealized(a.positions[i], a.instruments[i].price);
            let v = unrealized(b.positions[j], b.instruments[j].price);
            &&& u == v ==> x == y
            &&& u is Finite && v is Finite && 100 * size(units(u) - units(v)) > pow2(1074) ==> x
                != y
        }),
{
    let u = unrealized(a.positions[i], a.instruments[i].price);
    let v = unrealized(b.positions[j], b.instruments[j].price);
    if u is Finite && v is Finite {
        if 100 * (units(v) - units(u)) > pow2(1074) {
            law_amounts_are_told_apart(u, v, true);
        } else if 100 * (units(u) - units(v)) > pow2(1074) {
            law_amounts_are_told_apart(v, u, true);
        }
    }
}

/// The ticket names the selected instrument and shows the quantity of the next order and the
/// position held: its quantity, in the colour of its sign, and its average price.
pub proof fn law_ticket_shows_order_and_position(a: AppView)
    requires
        a.consistent(),
        a.ticket is Finite,
        a.positions[a.selected].qty is Finite,
        a.positions[a.selected].average_price is Finite,
    ensures
        ({
            let l = ticket_lines(a);
            let p = a.positions[a.selected];
            let n = rounded_text(p.qty).len() as int;
            &&& l.len() == 5
            &&& l[0][0].text == "Symbol: "@
            &&& l[1][0].text == "Qty:    "@
            &&& l[2][0].text == "Bid:    "@
            &&& l[3][0].text == "Ask:    "@
            &&& l[4][0].text == "Pos:    "@
            &&& l[0].len() == 2 && l[1].len() == 2 && l[2].len() == 2 && l[3].len() == 2
                && l[4].len() == 2
            &&& l[1][1].style.fg == Some(Color::Yellow) && l[1][1].style.bold
            &&& l[2][1].style.fg == Some(Color::Green)
            &&& l[3][1].style.fg == Some(Color::Red)
            &&& l[0][1].text == a.instruments[a.selected].symbol
            &&& shows_whole(l[1][1].text, a.ticket)
            &&& shows_whole(l[4][1].text.take(n), p.qty)
            &&& l[4][1].text.subrange(n, n + 3) == " @ "@
            &&& shows_cents(l[4][1].text.skip(n + 3), p.average_price)
            &&& tells_sign(l[4][1].style.fg, p.qty)
        }),
{
    reveal_strlit(" @ ");
    let p = a.positions[a.selected];
    let x = rounded_text(p.qty);
    let y = cents_text(p.average_price, false);
    law_quantities_read_back(a.ticket);
    law_quantities_read_back(p.qty);
    law_amounts_read_back(p.average_price, false);
    let text = x + " @ "@ + y;
    let n = x.len() as int;
    assert(text.take(n) =~= x);
    assert(text.subrange(n, n + 3) =~= " @ "@);
    assert(text.skip(n + 3) =~= y);
    assert(ticket_lines(a)[4][1].text == text);
}

/// The bid and the ask of the ticket lie on either side of the price of the selected instrument:
/// 9992 and 10008 ten-thousandths of it, each to half a hundredth and one part in `2^51`.
pub proof fn law_bid_and_ask_lie_around_the_price(a: AppView)
    requires
        valid(a),
        a.current().price is Finite,
        a.current().price->magnitude < pow2(2090),
    ensures
        ({
            let l = ticket_lines(a);
            let w = pow2(1074);
            let p = units(a.instruments[a.selected].price);
            let bid = number_read(l[2][1].text);
            let ask = number_read(l[3][1].text);
            let mid = number_read(cents_text(a.instruments[a.selected].price, false));
            &&& bid <= mid <= ask
            &&& pow2(51) * size(10000 * (bid * w) - 999200 * p) <= pow2(51) * (5000 * w) + 999200
                * p
            &&& pow2(51) * size(10000 * (ask * w) - 1000800 * p) <= pow2(51) * (5000 * w) + 1000800
                * p
        }),
{
    let price = a.instruments[a.selected].price;
    assert(sound(a.instruments[a.selected], a.clock));
    lemma2_to64_rest();
    law_fractions_of_prices_are_accurate(price, 9992, 10000);
    law_fractions_of_prices_are_accurate(price, 10008, 10000);
    let bid = product(price, ratio(9992, 10000));
    let ask = product(price, ratio(10008, 10000));
    law_amounts_read_back(bid, false);
    law_amounts_read_back(ask, false);
    let p = units(price);
    lemma_tenth();
    lemma_pow2_pos(1070);
    lemma_quote(p, 9992, units(bid), number_read(cents_text(bid, false)));
    lemma_quote(p, 10008, units(ask), number_read(cents_text(ask, false)));
    law_amounts_keep_their_order(bid, price, false, false);
    law_amounts_keep_their_order(price, ask, false, false);
}

proof fn lemma_quote(p: int, n: int, v: int, c: int)
    requires
        p > 0,
        n == 9992 || n == 10008,
        near(v * 10000, p * n, 51),
        -(pow2(1074) as int) <= 2 * (c * pow2(1074) - 100 * v) <= pow2(1074),
    ensures
        n == 9992 ==> v <= p,
        n == 10008 ==> v >= p,
        pow2(51) * size(10000 * (c * pow2(1074)) - (100 * n) * p) <= pow2(51) * (5000 * pow2(1074))
            + (100 * n) * p,
{
    lemma2_to64_rest();
    let f = pow2(51) as int;
    let w = pow2(1074) as int;
    let e = size(v * 10000 - p * n);
    assert(p * n > 0) by (nonlinear_arith)
        requires
            p > 0,
            n > 0,
    ;
    assert(100000 * e <= p * n) by (nonlinear_arith)
        requires
            f * e <= p * n,
            f >= 100000,
            e >= 0,
    ;
    let off = size(c * w - 100 * v);
    let all = size(10000 * (c * w) - (100 * n) * p);
    assert((100 * n) * p == 100 * (p * n)) by (nonlinear_arith);
    assert(all <= 5000 * w + 100 * e);
    assert(f * all <= f * (5000 * w) + 100 * (p * n)) by (nonlinear_arith)
        requires
            all <= 5000 * w + 100 * e,
            f * e <= p * n,
            f > 0,
    ;
}

/// The bid and the ask depend on nothing but the price of the selected instrument.
pub proof fn law_quotes_depend_on_the_price_only(a: AppView, b: AppView)
    requires
        a.instruments[a.selected].price == b.instruments[b.selected].price,
    ensures
        ticket_lines(a)[2] == ticket_lines(b)[2],
        ticket_lines(a)[3] == ticket_lines(b)[3],
{
}

/// The line of a trade shows its time, its side in its colour, the instrument, the quantity, the
/// price and what it gained.
pub proof fn law_trades_are_shown(t: TradeView)
    requires
        t.qty is Finite,
        t.price is Finite,
        t.realized is Finite,
    ensures
        ({
            let l = trade_line(t);
            let text = l[2].text;
            let n = t.symbol.len() as int;
            let m = rounded_text(t.qty).len() as int;
            &&& l.len() == 5
            &&& l[0].text == "["@ + digits_padded(t.time_index) + "] "@
            &&& l[3].text == " "@
            &&& text == " "@ + t.symbol + " "@ + rounded_text(t.qty) + " @ "@ + cents_text(
                t.price,
                false,
            )
            &&& digits_read(l[0].text) == t.time_index
            &&& t.side == Side::Buy ==> l[1].text == "BUY"@ && l[1].style.fg == Some(Color::Green)
            &&& t.side == Side::Sell ==> l[1].text == "SELL"@ && l[1].style.fg == Some(Color::Red)
            &&& text.subrange(1, n + 1) == t.symbol
            &&& shows_whole(text.subrange(n + 2, n + 2 + m), t.qty)
            &&& shows_cents(text.skip(n + m + 5), t.price)
            &&& shows_gain(l[4].text, t.realized)
            &&& tells_sign(l[4].style.fg, t.realized)
        }),
{
    reveal_strlit("[");
    reveal_strlit("] ");
    reveal_strlit(" ");
    reveal_strlit(" @ ");
    law_counts_read_back(t.time_index);
    law_quantities_read_back(t.qty);
    law_amounts_read_back(t.price, false);
    lemma_gain(t.realized);
    let d = digits_padded(t.time_index);
    let time = "["@ + d + "] "@;
    assert(time =~= seq!['['] + d + seq![']', ' ']);
    lemma_read_in_brackets(d, time);
    let x = rounded_text(t.qty);
    let y = cents_text(t.price, false);
    let text = " "@ + t.symbol + " "@ + x + " @ "@ + y;
    let n = t.symbol.len() as int;
    let m = x.len() as int;
    assert(trade_line(t)[2].text == text);
    assert(text.subrange(1, n + 1) =~= t.symbol);
    assert(text.subrange(n + 2, n + 2 + m) =~= x);
    assert(text.skip(n + m + 5) =~= y);
}

proof fn lemma_read_in_brackets(d: Seq<char>, time: Seq<char>)
    requires
        time == seq!['['] + d + seq![']', ' '],
    ensures
        digits_read(time) == digits_read(d),
{
    let a = time.drop_last();
    let b = a.drop_last();
    assert(time.last() == ' ');
    assert(a.last() == ']');
    assert(digits_read(time) == digits_read(a));
    assert(digits_read(a) == digits_read(b));
    assert(b =~= seq!['['] + d);
    lemma_read_after_bracket(d, b);
}

proof fn lemma_read_after_bracket(d: Seq<char>, b: Seq<char>)
    requires
        b == seq!['['] + d,
    ensures
        digits_read(b) == digits_read(d),
    decreases d.len(),
{
    if d.len() == 0 {
        assert(b.drop_last() =~= d);
        assert(digits_read(b.drop_last()) == 0);
    } else {
        assert(b.drop_last() =~= seq!['['] + d.drop_last());
        lemma_read_after_bracket(d.drop_last(), b.drop_last());
    }
}

/// The log opens with the keys that the terminal knows.
pub proof fn law_help_names_the_keys()
    ensures
        help_line().len() == 2,
        help_line()[0].text == "Hotkeys: "@,
        help_line()[1].text
            == "Tab/Left/Right switch | Up/Down qty | b buy | s sell | c close | q quit"@,
{
}

/// Amounts above zero are green, those below red, and all else gray.
pub proof fn law_colours_tell_signs(v: Value)
    ensures
        v is Finite ==> tells_sign(Some(hue(v)), v),
        hue(Value::Infinite { negative: false }) == Color::Green,
        hue(Value::Infinite { negative: true }) == Color::Red,
        hue(Value::Nan) == Color::Gray,
{
}

/// Whether the `i`-th point of a history has the least price of all, and the `j`-th the greatest.
pub open spec fn spans(h: Seq<(Value, Value)>, i: int, j: int) -> bool {
    &&& 0 <= i < h.len()
    &&& 0 <= j < h.len()
    &&& forall|k: int|
        0 <= k < h.len() ==> (#[trigger] h[k]).1 is Finite && units(h[i].1) <= units(h[k].1)
            <= units(h[j].1)
}

proof fn lemma_spans(h: Seq<(Value, Value)>, i: int, j: int)
    requires
        spans(h, i, j),
    ensures
        lowest(h) is Finite,
        highest(h) is Finite,
        units(lowest(h)) == units(h[i].1),
        units(highest(h)) == units(h[j].1),
{
    assert(h[i].1 is Finite && h[j].1 is Finite);
    lemma_extremes(h);
    let x = choose|x: int| 0 <= x < h.len() && lowest(h) == (#[trigger] h[x]).1;
    let y = choose|y: int| 0 <= y < h.len() && highest(h) == (#[trigger] h[y]).1;
    assert(h[x].1 is Finite && h[y].1 is Finite);
}

/// The chart is that of the selected instrument: all points of its history, over the last 120
/// steps of time, with its least price, its present price and its greatest price as labels.
pub proof fn law_chart_shows_the_history(a: AppView, i: int, j: int)
    requires
        a.has_selection(),
        spans(a.instruments[a.selected].history, i, j),
        a.instruments[a.selected].price is Finite,
        a.clock <= pow2(53),
    ensures
        ({
            let c = price_chart(a);
            let s = a.instruments[a.selected];
            &&& c.title == "Chart "@ + s.symbol
            &&& c.series == "mid"@
            &&& c.x_labels.len() == 2
            &&& c.x_labels[0].text == "older"@
            &&& c.x_labels[1].text == "now"@
            &&& c.points == s.history
            &&& c.x_bounds.0 == quantity(
                if a.clock >= 120 {
                    a.clock - 120
                } else {
                    0
                },
            )
            &&& c.x_bounds.1 == quantity(
                if a.clock >= 120 {
                    a.clock as int
                } else {
                    120
                },
            )
            &&& c.y_labels.len() == 3
            &&& shows_cents(c.y_labels[0].text, s.history[i].1)
            &&& shows_cents(c.y_labels[1].text, s.price)
            &&& shows_cents(c.y_labels[2].text, s.history[j].1)
        }),
{
    let h = a.instruments[a.selected].history;
    lemma_spans(h, i, j);
    law_amounts_read_back(lowest(h), false);
    law_amounts_read_back(a.instruments[a.selected].price, false);
    law_amounts_read_back(highest(h), false);
    lemma2_to64_rest();
    lemma_whole_exact(chart_start(a.clock));
    lemma_whole_exact(chart_end(a.clock));
}

/// The room above and below a chart, in hundredths: 15 percent of its height, but at least one.
pub open spec fn room(low: int, high: int) -> int {
    if 15 * (high - low) >= 100 * pow2(1074) {
        15 * (high - low)
    } else {
        (100 * pow2(1074)) as int
    }
}

proof fn lemma_margin(low: Value, high: Value)
    requires
        is_price(low),
        is_price(high),
        low is Finite,
        high is Finite,
        units(low) <= units(high),
        high->magnitude < pow2(2090),
    ensures
        margin(low, high) is Finite,
        units(margin(low, high)) > 0,
        pow2(50) * size(100 * units(margin(low, high)) - room(units(low), units(high))) <= room(
            units(low),
            units(high),
        ),
{
    lemma_one();
    lemma_tenth();
    lemma2_to64();
    lemma2_to64_rest();
    let w = pow2(1074) as int;
    let span = units(high) - units(low);
    lemma_pow2_pos(1070);
    lemma_pow2_pos(2090);
    lemma_pow2_adds(2090, 7);
    lemma_sum_is_finite(high, negated(low));
    law_sums_are_accurate(high, negated(low));
    let dv = difference(high, low);
    let d = units(dv);
    let f = pow2(53) as int;
    assert(2 * size(d - span) <= span) by (nonlinear_arith)
        requires
            f * size(d - span) <= span,
            f >= 2,
            size(d - span) >= 0,
    ;
    lemma_pow2_monotone(7, 1000);
    law_ratios_are_accurate(15, 100);
    let r = units(ratio(15, 100));
    let x = size(r * 100 - 15 * w);
    assert(15 * pow2(1074) == 15 * w);
    assert(15 * x <= 15 * w && 100 * x <= 15 * w) by (nonlinear_arith)
        requires
            f * x <= 15 * w,
            f >= 100,
            x >= 0,
            w > 0,
    ;
    assert(r <= w);
    let v = product(dv, ratio(15, 100));
    if span == 0 {
        lemma_nothing_times(dv, ratio(15, 100));
        assert(pow2(50) * 0 == 0) by (nonlinear_arith);
        assert(units(margin(low, high)) == w);
    } else {
        lemma_pow2_pos(1018);
        let a = lemma_price_is_multiple(low->magnitude);
        let b = lemma_price_is_multiple(high->magnitude);
        let u = pow2(1018) as int;
        assert(span >= u) by (nonlinear_arith)
            requires
                span == b * u - a * u,
                span > 0,
                u > 0,
        ;
        lemma_pow2_adds(1017, 1);
        lemma_pow2_pos(1017);
        assert(d >= pow2(1017));
        assert(size(d) * size(r) < pow2(2097) * w) by (nonlinear_arith)
            requires
                size(d) == d,
                size(r) == r,
                0 < d < 2 * pow2(2090),
                0 <= r <= w,
                pow2(2097) == pow2(2090) * 128,
                pow2(2090) > 0,
                w > 0,
        ;
        lemma_product_is_finite(dv, ratio(15, 100));
        law_products_are_accurate(dv, ratio(15, 100));
        lemma_pow2_adds(1070, 4);
        lemma_pow2_adds(1017, 1070);
        lemma_pow2_monotone(1126, 2087);
        assert(r >= pow2(1070));
        assert(d * r >= pow2(1017) * pow2(1070)) by (nonlinear_arith)
            requires
                d >= pow2(1017),
                r >= pow2(1070),
        ;
        assert(size(d * r) == d * r);
        lemma_fraction_error(d, w, 15, 100, r, units(v));
        // The errors of the difference and of the fraction together.
        let y = size(units(v) * 100 - d * 15);
        let z = size(d - span);
        let g = pow2(50) as int;
        assert(g * size(100 * units(v) - 15 * span) <= 15 * span) by (nonlinear_arith)
            requires
                size(100 * units(v) - 15 * span) <= y + 15 * z,
                2 * g * y <= 15 * d,
                8 * g * z <= span,
                2 * d <= 3 * span,
                span > 0,
                g > 0,
                y >= 0,
                z >= 0,
        ;
        let e = size(100 * units(v) - 15 * span);
        let m = margin(low, high);
        assert(e < 15 * span) by (nonlinear_arith)
            requires
                g * e <= 15 * span,
                g >= 2,
                span > 0,
                e >= 0,
        ;
        assert(units(v) > 0);
        assert(size(100 * units(m) - room(units(low), units(high))) <= e);
        if 15 * span >= 100 * w {
            assert(g * size(100 * units(m) - room(units(low), units(high))) <= 15 * span)
                by (nonlinear_arith)
                requires
                    g * e <= 15 * span,
                    size(100 * units(m) - room(units(low), units(high))) <= e,
                    g > 0,
            ;
        } else {
            assert(g * size(100 * units(m) - room(units(low), units(high))) <= 100 * w)
                by (nonlinear_arith)
                requires
                    g * e <= 15 * span,
                    15 * span <= 100 * w,
                    size(100 * units(m) - room(units(low), units(high))) <= e,
                    g > 0,
            ;
        }
    }
}

proof fn lemma_room_error(at: int, m: int, room: int, down: bool, bound: int)
    requires
        at >= 0,
        m >= 0,
        room >= 0,
        pow2(50) * size(100 * m - room) <= room,
        near(
            bound,
            if down {
                at - m
            } else {
                at + m
            },
            53,
        ),
    ensures
        pow2(49) * size(
            100 * bound - if down {
                100 * at - room
            } else {
                100 * at + room
            },
        ) <= 100 * at + room,
{
    lemma2_to64_rest();
    let g = pow2(49) as int;
    let e = size(100 * m - room);
    let target = if down {
        at - m
    } else {
        at + m
    };
    let o = size(bound - target);
    assert(e <= room) by (nonlinear_arith)
        requires
            2 * g * e <= room,
            g >= 1,
            e >= 0,
    ;
    assert(100 * m <= 2 * room);
    assert(size(target) <= at + m);
    let all = size(
        100 * bound - if down {
            100 * at - room
        } else {
            100 * at + room
        },
    );
    assert(all <= 100 * o + e);
    assert(g * all <= 100 * at + room) by (nonlinear_arith)
        requires
            all <= 100 * o + e,
            16 * g * o <= at + m,
            100 * m <= 2 * room,
            2 * g * e <= room,
            g > 0,
            at >= 0,
            room >= 0,
            o >= 0,
            e >= 0,
    ;
}

/// The chart leaves room above and below of 15 percent of its height, but at least one, to one part
/// in `2^49`.
pub proof fn law_chart_leaves_room(a: AppView, i: int, j: int)
    requires
        valid(a),
        spans(a.instruments[a.selected].history, i, j),
        units(a.instruments[a.selected].history[j].1) < pow2(2090),
    ensures
        ({
            let c = price_chart(a);
            let h = a.instruments[a.selected].history;
            let low = units(h[i].1);
            let high = units(h[j].1);
            &&& c.y_bounds.0 is Finite
            &&& c.y_bounds.1 is Finite
            &&& pow2(49) * size(100 * units(c.y_bounds.0) - (100 * low - room(low, high))) <= 100
                * low + room(low, high)
            &&& pow2(49) * size(100 * units(c.y_bounds.1) - (100 * high + room(low, high))) <= 100
                * high + room(low, high)
        }),
{
    let h = a.instruments[a.selected].history;
    assert(sound(a.instruments[a.selected], a.clock));
    lemma_spans(h, i, j);
    lemma_extremes(h);
    let x = choose|x: int| 0 <= x < h.len() && lowest(h) == (#[trigger] h[x]).1;
    let y = choose|y: int| 0 <= y < h.len() && highest(h) == (#[trigger] h[y]).1;
    let low = lowest(h);
    let high = highest(h);
    assert(is_price(h[x].1) && is_price(h[y].1));
    lemma_tenth();
    lemma_pow2_pos(1070);
    lemma_margin(low, high);
    let m = margin(low, high);
    let most = room(units(low), units(high));
    lemma2_to64();
    lemma2_to64_rest();
    lemma_pow2_pos(2090);
    lemma_pow2_adds(2090, 7);
    lemma_pow2_monotone(1074, 2090);
    let e = size(100 * units(m) - most);
    assert(e <= most) by (nonlinear_arith)
        requires
            pow2(50) * e <= most,
            pow2(50) >= 1,
            e >= 0,
    ;
    assert(units(m) <= 2 * pow2(2090));
    lemma_sum_is_finite(low, negated(m));
    lemma_sum_is_finite(high, m);
    law_sums_are_accurate(low, negated(m));
    law_sums_are_accurate(high, m);
    lemma_room_error(units(low), units(m), most, true, units(difference(low, m)));
    lemma_room_error(units(high), units(m), most, false, units(sum(high, m)));
}

} // verus!
