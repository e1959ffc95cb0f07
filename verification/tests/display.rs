//! What the panels show and where they stand.
use trading_terminal::double::Double;
use trading_terminal::market::{Color, Position, Side};
use trading_terminal::panels::{
    chart, header, log, pnl_color, positions, ticket, trades, watchlist, Style, TextPanel, Wrapping,
};
use trading_terminal::screen::{arrange, Area, Screen};
use trading_terminal::terminal::{App, KeyCode};

fn d(x: f64) -> Double {
    Double::from_bits(x.to_bits())
}

fn f(x: Double) -> f64 {
    f64::from_bits(x.bits)
}

fn texts(p: &TextPanel, i: usize) -> Vec<&str> {
    p.lines[i].iter().map(|s| s.text.as_str()).collect()
}

fn colours(p: &TextPanel, i: usize) -> Vec<Option<Color>> {
    p.lines[i].iter().map(|s| s.style.fg).collect()
}

const PLAIN: Style = Style { fg: None, bg: None, bold: false };

#[test]
fn the_header_shows_quote_and_totals() {
    let mut a = App::new();
    a.place_market_order(Side::Buy, d(10.0));
    let p = header(&a);
    assert_eq!(p.title, "Overview");
    assert_eq!(p.wrapping, Wrapping::Cut);
    assert_eq!(p.lines.len(), 1);
    assert_eq!(
        texts(&p, 0),
        vec![
            " Rust Trading Terminal ",
            "  ",
            "BTCUSDT 64250.00",
            "  ",
            "d% +0.00",
            "  ",
            "rPNL +0.00",
            "  ",
            "uPNL -10.00",
            "  ",
            "gross 64250.00",
        ]
    );
    assert_eq!(
        colours(&p, 0),
        vec![
            Some(Color::Black),
            None,
            Some(Color::White),
            None,
            Some(Color::Gray),
            None,
            Some(Color::Gray),
            None,
            Some(Color::Red),
            None,
            Some(Color::Yellow),
        ]
    );
    assert_eq!(p.lines[0][0].style.bg, Some(Color::Cyan));
    assert!(p.lines[0][0].style.bold);
    assert!(p.lines[0][2].style.bold);
    assert_eq!(p.lines[0][1].style, PLAIN);
}

#[test]
fn the_watchlist_marks_the_selection() {
    let mut a = App::new();
    a.handle_key(KeyCode::Left, d(0.0));
    a.on_tick(&vec![d(0.0), d(0.0), d(-0.01), d(0.0)]);
    let t = watchlist(&a);
    assert_eq!(t.title, "Watchlist");
    assert_eq!(t.header.cells, vec!["Symbol", "Last", "Change"]);
    assert_eq!(t.header.style, Style { fg: Some(Color::Cyan), bg: None, bold: true });
    assert_eq!(t.widths, vec![10, 10, 10]);
    assert_eq!(t.rows.len(), 4);
    assert_eq!(t.rows[0].cells, vec!["BTCUSDT", "64365.65", "+0.18%"]);
    let sol: f64 = 142.0 * (1.0 + 0.0010 - 0.01);
    assert_eq!(t.rows[2].cells[1], format!("{:.2}", sol));
    assert_eq!(t.rows[2].cells[2], "-0.90%");
    assert_eq!(t.rows[0].style, PLAIN);
    assert_eq!(
        t.rows[3].style,
        Style { fg: Some(Color::Black), bg: Some(Color::LightCyan), bold: true }
    );
}

#[test]
fn the_chart_has_room_for_all_points() {
    let mut a = App::new();
    let c = chart(&a);
    assert_eq!(c.title, "Chart BTCUSDT");
    assert_eq!(c.series, "mid");
    assert_eq!(c.series_style.fg, Some(Color::Cyan));
    assert_eq!(c.axis_style.fg, Some(Color::DarkGray));
    assert_eq!((f(c.x_bounds.0), f(c.x_bounds.1)), (0.0, 120.0));
    assert_eq!((f(c.y_bounds.0), f(c.y_bounds.1)), (64249.0, 64251.0));
    assert_eq!(c.points.len(), 120);
    for i in 0..125u64 {
        let noise = if i % 2 == 0 { 0.01 } else { -0.011 };
        a.on_tick(&vec![d(noise), d(0.0), d(0.0), d(0.0)]);
        let c = chart(&a);
        let prices: Vec<f64> = c.points.iter().map(|p| f(p.1)).collect();
        let low = prices.iter().copied().fold(f64::INFINITY, f64::min);
        let high = prices.iter().copied().fold(f64::NEG_INFINITY, f64::max);
        let room = ((high - low) * 0.15).max(1.0);
        assert_eq!(f(c.y_bounds.0), low - room);
        assert_eq!(f(c.y_bounds.1), high + room);
        let labels: Vec<&str> = c.y_labels.iter().map(|s| s.text.as_str()).collect();
        let price = f(a.instruments[0].price);
        assert_eq!(
            labels,
            vec![format!("{:.2}", low), format!("{:.2}", price), format!("{:.2}", high)]
        );
        for p in &c.points {
            assert!(f(c.x_bounds.0) <= f(p.0) && f(p.0) <= f(c.x_bounds.1));
            assert!(f(c.y_bounds.0) <= f(p.1) && f(p.1) <= f(c.y_bounds.1));
        }
    }
    let c = chart(&a);
    assert_eq!((f(c.x_bounds.0), f(c.x_bounds.1)), (5.0, 125.0));
    let ends: Vec<&str> = c.x_labels.iter().map(|s| s.text.as_str()).collect();
    assert_eq!(ends, vec!["older", "now"]);
    assert_eq!(c.x_labels[0].style.fg, Some(Color::DarkGray));
    assert_eq!(c.y_labels[0].style, PLAIN);
}

#[test]
fn the_ticket_shows_bid_ask_and_position() {
    let mut a = App::new();
    a.handle_key(KeyCode::Up, d(0.0));
    a.place_market_order(Side::Sell, d(0.25));
    let p = ticket(&a);
    assert_eq!(p.title, "Order Ticket");
    assert_eq!(p.wrapping, Wrapping::Trimmed);
    assert_eq!(texts(&p, 0), vec!["Symbol: ", "BTCUSDT"]);
    assert_eq!(texts(&p, 1), vec!["Qty:    ", "2"]);
    let (bid, ask) = (format!("{:.2}", 64_250.0 * 0.9992), format!("{:.2}", 64_250.0 * 1.0008));
    assert_eq!(texts(&p, 2), vec!["Bid:    ", bid.as_str()]);
    assert_eq!(texts(&p, 3), vec!["Ask:    ", ask.as_str()]);
    assert_eq!(texts(&p, 4), vec!["Pos:    ", "-2 @ 64249.75"]);
    assert_eq!(colours(&p, 0), vec![Some(Color::Gray), None]);
    assert_eq!(colours(&p, 1), vec![Some(Color::Gray), Some(Color::Yellow)]);
    assert!(p.lines[1][1].style.bold);
    assert_eq!(colours(&p, 2), vec![Some(Color::Gray), Some(Color::Green)]);
    assert_eq!(colours(&p, 3), vec![Some(Color::Gray), Some(Color::Red)]);
    assert_eq!(colours(&p, 4), vec![Some(Color::Gray), Some(Color::Red)]);
    assert_eq!(p.lines.len(), 5);
}

#[test]
fn the_positions_show_what_is_held() {
    let mut a = App::new();
    a.place_market_order(Side::Buy, d(50.0));
    a.place_market_order(Side::Buy, d(50.0));
    a.handle_key(KeyCode::Char('s'), d(0.0));
    let t = positions(&a);
    assert_eq!(t.title, "Positions");
    assert_eq!(t.header.cells, vec!["Symbol", "Qty", "Avg", "uPNL", "rPNL"]);
    assert_eq!(t.widths, vec![9, 7, 10, 10, 10]);
    assert_eq!(t.rows.len(), 4);
    assert_eq!(t.rows[0].cells, vec!["BTCUSDT", "1", "64300.00", "-50.00", "-50.00"]);
    assert_eq!(t.rows[3].cells, vec!["AAPL", "0", "0.00", "+0.00", "+0.00"]);
    assert_eq!(t.rows[0].style, PLAIN);
}

#[test]
fn the_trades_are_listed_latest_first() {
    let mut a = App::new();
    a.on_tick(&vec![d(0.0), d(0.0), d(0.0), d(0.0)]);
    a.handle_key(KeyCode::Left, d(0.0));
    a.place_market_order(Side::Buy, d(1.0));
    a.place_market_order(Side::Sell, d(1.0));
    let p = trades(&a);
    assert_eq!(p.title, "Recent Trades");
    assert_eq!(p.lines.len(), 2);
    let mark: f64 = 201.4 * (1.0 + 0.0004);
    let deal = format!(" AAPL 1 @ {:.2}", mark - 1.0);
    assert_eq!(texts(&p, 0), vec!["[001] ", "SELL", deal.as_str(), " ", "-2.00"]);
    let deal = format!(" AAPL 1 @ {:.2}", mark + 1.0);
    assert_eq!(texts(&p, 1), vec!["[001] ", "BUY", deal.as_str(), " ", "+0.00"]);
    assert_eq!(
        colours(&p, 0),
        vec![Some(Color::DarkGray), Some(Color::Red), None, None, Some(Color::Red)]
    );
    assert_eq!(
        colours(&p, 1),
        vec![Some(Color::DarkGray), Some(Color::Green), None, None, Some(Color::Gray)]
    );
}

#[test]
fn the_log_explains_the_keys_first() {
    let mut a = App::new();
    a.push_log("second".to_string());
    let p = log(&a);
    assert_eq!(p.title, "Execution Log");
    assert_eq!(p.wrapping, Wrapping::Kept);
    assert_eq!(
        texts(&p, 0),
        vec![
            "Hotkeys: ",
            "Tab/Left/Right switch | Up/Down qty | b buy | s sell | c close | q quit",
        ]
    );
    assert_eq!(colours(&p, 0), vec![Some(Color::Cyan), None]);
    assert_eq!(texts(&p, 1), vec!["second"]);
    assert_eq!(
        texts(&p, 2),
        vec!["Terminal started. Press b/s to trade, Tab to switch instrument."]
    );
    assert_eq!(p.lines.len(), 3);
}

#[test]
fn amounts_are_green_red_or_gray() {
    assert_eq!(pnl_color(d(0.01)), Color::Green);
    assert_eq!(pnl_color(d(-0.01)), Color::Red);
    assert_eq!(pnl_color(d(0.0)), Color::Gray);
    assert_eq!(pnl_color(d(-0.0)), Color::Gray);
    assert_eq!(pnl_color(d(f64::NAN)), Color::Gray);
}

fn wanted(a: Area) -> Screen {
    let top = a.y + 3;
    let tall = a.height - 12;
    let right = a.x + a.width - 42;
    Screen {
        header: Area { x: a.x, y: a.y, width: a.width, height: 3 },
        watchlist: Area { x: a.x, y: top, width: 34, height: tall },
        chart: Area { x: a.x + 34, y: top, width: a.width - 76, height: tall },
        ticket: Area { x: right, y: top, width: 42, height: 8 },
        positions: Area { x: right, y: top + 8, width: 42, height: 12 },
        trades: Area { x: right, y: top + 20, width: 42, height: tall - 20 },
        log: Area { x: a.x, y: a.y + a.height - 9, width: a.width, height: 9 },
    }
}

#[test]
fn large_screens_are_divided_exactly() {
    for (width, height) in [(126, 40), (127, 41), (200, 50), (333, 121), (5000, 999), (32767, 32767), (65000, 65000)]
    {
        for (x, y) in [(0, 0), (3, 7)] {
            let a = Area { x, y, width, height };
            assert_eq!(arrange(a), wanted(a));
        }
    }
}

#[test]
fn smaller_screens_are_divided_as_far_as_the_parts_fit() {
    let a = Area { x: 0, y: 0, width: 80, height: 28 };
    let s = arrange(a);
    assert_eq!(s.header, Area { x: 0, y: 0, width: 80, height: 3 });
    assert_eq!(s.log, Area { x: 0, y: 19, width: 80, height: 9 });
    assert_eq!((s.watchlist.y, s.watchlist.height), (3, 16));
    assert_eq!((s.chart.y, s.chart.height), (3, 16));
    let a = Area { x: 0, y: 0, width: 126, height: 10 };
    let s = arrange(a);
    assert_eq!((s.watchlist.x, s.watchlist.width), (0, 34));
    assert_eq!((s.chart.x, s.chart.width), (34, 50));
    assert_eq!((s.ticket.x, s.ticket.width), (84, 42));
    assert_eq!((s.trades.x, s.trades.width), (84, 42));
}

#[test]
fn a_common_screen_keeps_the_minima() {
    let s = arrange(Area { x: 0, y: 0, width: 80, height: 24 });
    assert_eq!((s.chart.width, s.chart.height), (50, 16));
    assert_eq!(s.watchlist.width + s.ticket.width, 30);
    assert_eq!(s.header.height + s.log.height, 8);
    assert_eq!((s.trades.height, s.trades.y + s.trades.height), (8, s.log.y));
    assert_eq!((s.ticket.height, s.positions.height), (4, 4));
}

fn stretched(minimum: u16, all: u16, size: u16) -> u16 {
    if all <= size {
        size - all + minimum
    } else {
        minimum.min(size)
    }
}

fn check_parts(a: Area) {
    let s = arrange(a);
    assert_eq!((s.header.x, s.header.y, s.header.width), (a.x, a.y, a.width));
    assert!(s.header.height <= 3);
    assert_eq!(s.chart.y, a.y + s.header.height);
    assert_eq!(s.chart.height, stretched(16, 28, a.height), "{:?}", a);
    assert_eq!((s.log.x, s.log.y, s.log.width), (a.x, s.chart.y + s.chart.height, a.width));
    assert!(s.log.height <= 9);
    assert_eq!(s.log.y + s.log.height, a.y + a.height);
    assert_eq!((s.watchlist.x, s.watchlist.y), (a.x, s.chart.y));
    assert_eq!(s.watchlist.height, s.chart.height);
    assert!(s.watchlist.width <= 34);
    assert_eq!(s.chart.x, a.x + s.watchlist.width);
    assert_eq!(s.chart.width, stretched(50, 126, a.width), "{:?}", a);
    for part in [s.ticket, s.positions, s.trades] {
        assert_eq!((part.x, part.width), (s.chart.x + s.chart.width, s.ticket.width));
    }
    assert!(s.ticket.width <= 42);
    assert_eq!(s.ticket.x + s.ticket.width, a.x + a.width);
    assert_eq!(s.ticket.y, s.chart.y);
    let room = s.chart.height - s.trades.height;
    assert_eq!(s.ticket.height, ((room + 1) / 2).min(8), "{:?}", a);
    assert_eq!(s.positions.y, s.ticket.y + s.ticket.height);
    assert!(s.positions.height <= 12);
    assert_eq!(s.trades.y, s.positions.y + s.positions.height);
    assert_eq!(s.trades.height, stretched(8, 28, s.chart.height), "{:?}", a);
    assert_eq!(s.trades.y + s.trades.height, s.chart.y + s.chart.height);
}

#[test]
fn every_width_is_filled() {
    for width in 0..=140 {
        check_parts(Area { x: 5, y: 2, width, height: 24 });
    }
}

#[test]
fn every_height_is_filled() {
    for height in 0..=60 {
        check_parts(Area { x: 5, y: 2, width: 80, height });
    }
}

#[test]
fn wide_and_tall_screens_are_filled() {
    for (width, height) in [(65535, 20), (100, 65535), (65535, 65535), (0, 0), (40000, 7)] {
        check_parts(Area { x: 0, y: 0, width, height });
    }
}

#[test]
fn positions_without_an_instrument_are_left_out() {
    let mut app = App::new();
    app.positions.push(Position { qty: d(2.0), average_price: d(1.0), realized_pnl: d(3.0) });
    app.selected = 9;
    assert_eq!(positions(&app).rows.len(), 4);
    assert_eq!(f(app.gross_exposure()), 0.0);
    assert_eq!(f(app.total_unrealized()), 0.0);
    assert_eq!(f(app.total_realized()), 3.0);
    app.instruments.pop();
    app.positions[0].qty = d(-1.0);
    assert_eq!(positions(&app).rows.len(), 3);
    assert_eq!(f(app.gross_exposure()), 64_250.0);
    assert_eq!(f(app.total_unrealized()), -64_250.0);
}
