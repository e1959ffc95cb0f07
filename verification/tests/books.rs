//! How fills, trades, positions and totals agree, on concrete values.
use trading_terminal::double::Double;
use trading_terminal::market::{Position, Side};
use trading_terminal::terminal::{App, KeyCode, MAX_TRADES};

fn d(x: f64) -> Double {
    Double::from_bits(x.to_bits())
}

fn f(x: Double) -> f64 {
    f64::from_bits(x.bits)
}

fn next(state: &mut u64) -> u64 {
    *state ^= *state << 13;
    *state ^= *state >> 7;
    *state ^= *state << 17;
    *state
}

fn position(qty: f64, average: f64, realized: f64) -> Position {
    Position { qty: d(qty), average_price: d(average), realized_pnl: d(realized) }
}

fn sign(side: Side) -> f64 {
    match side {
        Side::Buy => 1.0,
        Side::Sell => -1.0,
    }
}

#[test]
fn fills_create_no_profit() {
    // Opened, enlarged, reduced, closed and turned, in both directions.
    let cases = [
        (0.0, 0.0, Side::Buy, 4.0, 10.0, 4.0, 10.0, 0.0),
        (4.0, 10.0, Side::Buy, 4.0, 11.0, 8.0, 10.5, 0.0),
        (8.0, 10.5, Side::Sell, 3.0, 12.0, 5.0, 10.5, 4.5),
        (5.0, 10.5, Side::Sell, 5.0, 9.0, 0.0, 0.0, -7.5),
        (5.0, 10.5, Side::Sell, 7.0, 9.0, -2.0, 9.0, -7.5),
        (0.0, 0.0, Side::Sell, 2.0, 10.0, -2.0, 10.0, 0.0),
        (-2.0, 10.0, Side::Sell, 2.0, 13.0, -4.0, 11.5, 0.0),
        (-4.0, 11.5, Side::Buy, 1.0, 9.0, -3.0, 11.5, 2.5),
        (-4.0, 11.5, Side::Buy, 4.0, 12.0, 0.0, 0.0, -2.0),
        (-4.0, 11.5, Side::Buy, 6.0, 12.0, 2.0, 12.0, -2.0),
    ];
    for (qty, average, side, amount, price, left, cost, gain) in cases {
        let mut p = position(qty, average, 100.0);
        for mark in [1.0, 9.5, 64.25] {
            let open = f(p.unrealized_pnl(d(mark)));
            assert_eq!(open, (mark - average) * qty);
        }
        let before: Vec<f64> =
            [1.0, 9.5, 64.25].iter().map(|m| 100.0 + f(p.unrealized_pnl(d(*m)))).collect();
        let r = p.apply_fill(side, d(amount), d(price));
        assert_eq!((f(p.qty), f(p.average_price), f(r)), (left, cost, gain));
        assert_eq!(f(p.realized_pnl), 100.0 + gain);
        for (i, mark) in [1.0, 9.5, 64.25].iter().enumerate() {
            let after = f(p.realized_pnl) + f(p.unrealized_pnl(d(*mark)));
            assert_eq!(after, before[i] + sign(side) * amount * (mark - price));
        }
    }
}

#[test]
fn fills_can_be_split() {
    // The parts enlarge, reduce, close and turn the position.
    let cases = [
        (4.0, 10.0, Side::Buy, 2.0, 2.0, 12.0),
        (9.0, 10.0, Side::Sell, 2.0, 3.0, 12.0),
        (9.0, 10.0, Side::Sell, 4.0, 5.0, 12.0),
        (9.0, 10.0, Side::Sell, 4.0, 7.0, 12.0),
        (9.0, 10.0, Side::Sell, 9.0, 7.0, 12.0),
        (9.0, 10.0, Side::Sell, 11.0, 2.0, 12.0),
        (-9.0, 10.0, Side::Buy, 4.0, 7.0, 12.0),
        (-9.0, 10.0, Side::Sell, 3.0, 4.0, 14.0),
    ];
    for (qty, average, side, i, j, price) in cases {
        let mut parts = position(qty, average, 1.5);
        let first = f(parts.apply_fill(side, d(i), d(price)));
        let second = f(parts.apply_fill(side, d(j), d(price)));
        let mut once = position(qty, average, 1.5);
        let gain = f(once.apply_fill(side, d(i + j), d(price)));
        assert_eq!(f(parts.qty), f(once.qty));
        assert_eq!(f(parts.realized_pnl), f(once.realized_pnl));
        assert_eq!(first + second, gain);
        if qty * sign(side) < 0.0 {
            assert_eq!(f(parts.average_price), f(once.average_price));
        } else {
            assert!((f(parts.average_price) - f(once.average_price)).abs() < 1e-12);
        }
    }
    let mut parts = position(4.0, 10.0, 0.0);
    parts.apply_fill(Side::Buy, d(4.0), d(12.0));
    parts.apply_fill(Side::Buy, d(8.0), d(12.0));
    let mut once = position(4.0, 10.0, 0.0);
    once.apply_fill(Side::Buy, d(12.0), d(12.0));
    assert_eq!((f(parts.average_price), f(once.average_price)), (11.5, 11.5));
}

#[test]
fn large_fills_create_no_profit_and_can_be_split() {
    let n = (1u64 << 58) as f64;
    let mut p = position(4.0 * n, 2.0, 0.0);
    assert_eq!(f(p.unrealized_pnl(d(1.0))), -4.0 * n);
    assert_eq!(f(p.apply_fill(Side::Sell, d(2.0 * n), d(4.0))), 4.0 * n);
    assert_eq!((f(p.qty), f(p.average_price), f(p.realized_pnl)), (2.0 * n, 2.0, 4.0 * n));
    let after = f(p.realized_pnl) + f(p.unrealized_pnl(d(1.0)));
    assert_eq!(after, -4.0 * n - 2.0 * n * (1.0 - 4.0));
    let mut q = position(4.0 * n, 2.0, 0.0);
    let first = f(q.apply_fill(Side::Sell, d(n), d(4.0)));
    let second = f(q.apply_fill(Side::Sell, d(n), d(4.0)));
    assert_eq!(first + second, 4.0 * n);
    assert_eq!((f(q.qty), f(q.average_price), f(q.realized_pnl)), (2.0 * n, 2.0, 4.0 * n));
}

fn account(app: &App, i: usize) -> (f64, f64) {
    let mut qty = 0.0;
    let mut gain = 0.0;
    for t in app.trades.iter().rev() {
        if t.symbol == app.instruments[i].symbol {
            qty += f(t.qty) * sign(t.side);
            gain += f(t.realized);
        }
    }
    (qty, gain)
}

#[test]
fn trades_account_for_positions() {
    let keys = ['b', 's', 'c', '+', '-'];
    for seed in 1..40u64 {
        let mut s = seed;
        let mut app = App::new();
        while app.trades.len() < MAX_TRADES {
            let slippage = d((next(&mut s) % 1000) as f64 / 7.0);
            match next(&mut s) % 7 {
                0 => {
                    app.handle_key(KeyCode::Tab, slippage);
                }
                1 => {
                    let mut noise = Vec::new();
                    for _ in 0..4 {
                        noise.push(d((next(&mut s) % 200) as f64 / 10_000.0 - 0.01));
                    }
                    app.on_tick(&noise);
                }
                n => {
                    app.handle_key(KeyCode::Char(keys[n as usize - 2]), slippage);
                }
            }
            for i in 0..4 {
                let (qty, gain) = account(&app, i);
                assert_eq!(qty, f(app.positions[i].qty));
                assert_eq!(gain, f(app.positions[i].realized_pnl));
            }
        }
    }
}

#[test]
fn exposure_ignores_sides_and_vanishes_only_without_positions() {
    let mut app = App::new();
    assert_eq!(f(app.gross_exposure()), 0.0);
    app.positions[0].qty = d(2.0);
    app.positions[1].qty = d(-3.0);
    assert_eq!(f(app.gross_exposure()), 2.0 * 64_250.0 + 3.0 * 3_180.0);
    app.positions[0].qty = d(-2.0);
    assert_eq!(f(app.gross_exposure()), 2.0 * 64_250.0 + 3.0 * 3_180.0);
    app.positions[0].qty = d(0.0);
    app.positions[1].qty = d(0.0);
    app.positions[3].qty = d(-1.0);
    assert_eq!(f(app.gross_exposure()), 201.4);
}

#[test]
fn only_orders_move_the_realized_total() {
    let mut app = App::new();
    app.handle_key(KeyCode::Char('b'), d(2.0));
    assert_eq!(f(app.total_realized()), 0.0);
    app.handle_key(KeyCode::Char('s'), d(2.0));
    assert_eq!(f(app.trades[0].realized), -4.0);
    assert_eq!(f(app.total_realized()), -4.0);
    app.handle_key(KeyCode::Tab, d(1.0));
    app.handle_key(KeyCode::Up, d(1.0));
    app.handle_key(KeyCode::Char('c'), d(1.0));
    app.on_tick(&vec![d(0.001), d(-0.002), d(0.003), d(0.0)]);
    assert_eq!(f(app.total_realized()), -4.0);
    app.instruments[1].price = d(3_000.0);
    app.handle_key(KeyCode::Char('s'), d(8.0));
    app.instruments[1].price = d(2_900.0);
    assert_eq!(f(app.total_realized()), -4.0);
    app.handle_key(KeyCode::Char('c'), d(16.0));
    assert_eq!(f(app.trades[0].realized), 2.0 * (2_992.0 - 2_916.0));
    assert_eq!(f(app.total_realized()), -4.0 + 152.0);
}
