//! The state of the terminal under keys and time.
use trading_terminal::double::Double;
use trading_terminal::market::Side;
use trading_terminal::terminal::{App, KeyCode, MAX_LOG_LINES, MAX_TRADES};

fn d(x: f64) -> Double {
    Double::from_bits(x.to_bits())
}

fn f(x: Double) -> f64 {
    f64::from_bits(x.bits)
}

fn quiet() -> Vec<Double> {
    vec![d(0.0), d(0.0), d(0.0), d(0.0)]
}

#[test]
fn the_terminal_starts_with_four_instruments() {
    let a = App::new();
    let symbols: Vec<&str> = a.instruments.iter().map(|i| i.symbol).collect();
    assert_eq!(symbols, vec!["BTCUSDT", "ETHUSDT", "SOLUSDT", "AAPL"]);
    let prices: Vec<f64> = a.instruments.iter().map(|i| f(i.price)).collect();
    assert_eq!(prices, vec![64_250.0, 3_180.0, 142.0, 201.4]);
    let drifts: Vec<f64> = a.instruments.iter().map(|i| f(i.drift)).collect();
    assert_eq!(drifts, vec![0.0018, 0.0013, 0.0010, 0.0004]);
    let noise: Vec<f64> = a.instruments.iter().map(|i| f(i.volatility)).collect();
    assert_eq!(noise, vec![0.012, 0.010, 0.017, 0.004]);
    assert_eq!(a.positions.len(), 4);
    assert_eq!(a.trades.len(), 0);
    assert_eq!(a.log.len(), 1);
    assert_eq!(
        a.log[0],
        "Terminal started. Press b/s to trade, Tab to switch instrument."
    );
    assert_eq!((a.selected, a.clock, f(a.ticket.qty)), (0, 0, 1.0));
    assert_eq!(a.current_instrument().symbol, "BTCUSDT");
}

#[test]
fn tab_and_arrows_go_round_the_instruments() {
    let mut a = App::new();
    for want in [1, 2, 3, 0, 1] {
        assert!(a.handle_key(KeyCode::Tab, d(0.0)));
        assert_eq!(a.selected, want);
    }
    for want in [0, 3, 2] {
        assert!(a.handle_key(KeyCode::Left, d(0.0)));
        assert_eq!(a.selected, want);
    }
    assert!(a.handle_key(KeyCode::Right, d(0.0)));
    assert_eq!(a.selected, 3);
    assert!(a.handle_key(KeyCode::BackTab, d(0.0)));
    assert_eq!(a.selected, 2);
}

#[test]
fn up_and_down_change_the_ticket() {
    let mut a = App::new();
    assert!(a.handle_key(KeyCode::Up, d(0.0)));
    assert!(a.handle_key(KeyCode::Char('+'), d(0.0)));
    assert_eq!(f(a.ticket.qty), 3.0);
    assert!(a.handle_key(KeyCode::Down, d(0.0)));
    assert!(a.handle_key(KeyCode::Char('-'), d(0.0)));
    assert!(a.handle_key(KeyCode::Char('-'), d(0.0)));
    assert_eq!(f(a.ticket.qty), 1.0);
}

#[test]
fn only_q_and_escape_quit() {
    let mut a = App::new();
    assert!(!a.handle_key(KeyCode::Char('q'), d(0.0)));
    assert!(!a.handle_key(KeyCode::Esc, d(0.0)));
    assert!(a.handle_key(KeyCode::Char('x'), d(0.0)));
    assert!(a.handle_key(KeyCode::Other, d(0.0)));
    assert_eq!((a.selected, a.log.len(), a.trades.len()), (0, 1, 0));
}

#[test]
fn orders_trade_at_the_market_with_slippage() {
    let mut a = App::new();
    a.handle_key(KeyCode::Up, d(0.0));
    assert!(a.handle_key(KeyCode::Char('b'), d(10.5)));
    assert_eq!(f(a.positions[0].qty), 2.0);
    assert_eq!(f(a.positions[0].average_price), 64260.5);
    assert_eq!(a.log[0], "BUY BTCUSDT 2 @ 64260.50 | pos 2 | rPNL +0.00");
    assert!(a.handle_key(KeyCode::Char('s'), d(0.5)));
    assert_eq!(a.log[0], "SELL BTCUSDT 2 @ 64249.50 | pos 0 | rPNL -22.00");
    assert_eq!(a.trades.len(), 2);
    assert_eq!(a.trades[0].side, Side::Sell);
    assert_eq!(f(a.trades[0].price), 64249.5);
    assert_eq!(f(a.trades[0].realized), -22.0);
    assert_eq!(a.trades[1].side, Side::Buy);
    assert_eq!(a.trades[0].symbol, "BTCUSDT");
    assert_eq!(a.trades[0].time_index, 0);
    assert_eq!(f(a.positions[1].qty), 0.0);
}

#[test]
fn closing_flattens_and_keeps_the_ticket() {
    let mut a = App::new();
    a.place_market_order(Side::Sell, d(1.0));
    a.place_market_order(Side::Sell, d(2.0));
    a.handle_key(KeyCode::Up, d(0.0));
    a.handle_key(KeyCode::Up, d(0.0));
    assert!(a.handle_key(KeyCode::Char('c'), d(3.0)));
    assert_eq!(f(a.positions[0].qty), 0.0);
    assert_eq!(f(a.positions[0].average_price), 0.0);
    assert_eq!(f(a.ticket.qty), 3.0);
    assert_eq!(f(a.trades[0].qty), 2.0);
    assert_eq!(a.trades[0].side, Side::Buy);
    assert_eq!(a.log[0], "BUY BTCUSDT 2 @ 64253.00 | pos 0 | rPNL -9.00");
    let trades = a.trades.len();
    a.close_position(d(4.0));
    assert_eq!(a.log[0], "Position in BTCUSDT is already flat.");
    assert_eq!(a.trades.len(), trades);
    a.place_market_order(Side::Buy, d(0.0));
    a.close_position(d(0.0));
    assert_eq!(a.trades[0].side, Side::Sell);
    assert_eq!(f(a.trades[0].qty), 3.0);
}

#[test]
fn only_orders_need_slippage() {
    let mut a = App::new();
    assert_eq!(f(a.slippage_bound(KeyCode::Char('b')).unwrap()), 64_250.0 * 0.0015);
    assert_eq!(f(a.slippage_bound(KeyCode::Char('s')).unwrap()), 64_250.0 * 0.0015);
    assert!(a.slippage_bound(KeyCode::Char('c')).is_none());
    assert!(a.slippage_bound(KeyCode::Tab).is_none());
    assert!(a.slippage_bound(KeyCode::Char('q')).is_none());
    a.place_market_order(Side::Buy, d(0.0));
    assert_eq!(f(a.slippage_bound(KeyCode::Char('c')).unwrap()), 64_250.0 * 0.0015);
    a.handle_key(KeyCode::Tab, d(0.0));
    assert!(a.slippage_bound(KeyCode::Char('c')).is_none());
}

#[test]
fn trades_and_log_keep_the_latest() {
    let mut a = App::new();
    for i in 0..30u64 {
        a.place_market_order(Side::Buy, d(i as f64));
    }
    assert_eq!(a.trades.len(), MAX_TRADES);
    assert_eq!(MAX_TRADES, 12);
    assert_eq!(a.log.len(), MAX_LOG_LINES);
    assert_eq!(MAX_LOG_LINES, 18);
    for (k, t) in a.trades.iter().enumerate() {
        assert_eq!(f(t.price), 64250.0 + (29 - k) as f64);
    }
    assert_eq!(a.log[0], "BUY BTCUSDT 1 @ 64279.00 | pos 30 | rPNL +0.00");
    assert_eq!(a.log[17], "BUY BTCUSDT 1 @ 64262.00 | pos 13 | rPNL +0.00");
    a.push_log("last".to_string());
    assert_eq!(a.log.len(), 18);
    assert_eq!(a.log[0], "last");
}

#[test]
fn time_moves_all_prices_and_marks_every_eighth() {
    let mut a = App::new();
    let mut prices = [64_250.0f64, 3_180.0, 142.0, 201.4];
    let drifts = [0.0018, 0.0013, 0.0010, 0.0004];
    let noise = [0.003, -0.004, 0.005, -0.001];
    let given: Vec<Double> = noise.iter().map(|x| d(*x)).collect();
    a.handle_key(KeyCode::Tab, d(0.0));
    for clock in 1..=17u64 {
        a.on_tick(&given);
        assert_eq!(a.clock, clock);
        for i in 0..4 {
            prices[i] = (prices[i] * (1.0 + drifts[i] + noise[i])).max(0.1);
            assert_eq!(f(a.instruments[i].price).to_bits(), prices[i].to_bits());
        }
        let marks = (clock / 8) as usize;
        assert_eq!(a.log.len(), 1 + marks);
        if clock % 8 == 0 {
            assert_eq!(a.log[0], format!("MARK ETHUSDT {:.2}", prices[1]));
        }
    }
    assert_eq!(a.trades.len(), 0);
    assert_eq!(a.selected, 1);
}

#[test]
fn history_times_run_from_the_start_and_then_from_one() {
    let mut a = App::new();
    for clock in 1..=130u64 {
        a.on_tick(&quiet());
        let h = &a.instruments[0].history;
        assert_eq!(h.len(), 120);
        for i in 0..120u64 {
            let want = if i + clock < 120 { i + clock } else { i + clock - 119 };
            assert_eq!(f(h[i as usize].0), want as f64);
        }
    }
}

#[test]
fn totals_add_up_over_all_positions() {
    let mut a = App::new();
    assert_eq!(f(a.total_unrealized()), 0.0);
    assert_eq!(f(a.total_realized()), 0.0);
    assert_eq!(f(a.gross_exposure()), 0.0);
    a.place_market_order(Side::Buy, d(10.0));
    a.handle_key(KeyCode::Tab, d(0.0));
    a.place_market_order(Side::Sell, d(5.0));
    a.place_market_order(Side::Sell, d(7.0));
    assert_eq!(f(a.total_unrealized()), -22.0);
    assert_eq!(f(a.gross_exposure()), 64_250.0 + 2.0 * 3_180.0);
    a.close_position(d(1.0));
    assert_eq!(f(a.total_realized()), -14.0);
    assert_eq!(f(a.total_unrealized()), -10.0);
}

#[test]
fn slippage_is_never_a_gain() {
    let mut a = App::new();
    a.place_market_order(Side::Buy, d(0.0));
    assert_eq!(f(a.trades[0].price), 64_250.0);
    a.place_market_order(Side::Buy, d(1e-20));
    assert!(f(a.trades[0].price) >= 64_250.0);
    a.place_market_order(Side::Sell, d(1e-20));
    assert!(f(a.trades[0].price) <= 64_250.0);
    a.place_market_order(Side::Sell, d(96.0));
    assert_eq!(f(a.trades[0].price), 64_154.0);
}

#[test]
fn random_use_keeps_the_state_in_bounds() {
    let mut seed = 0x1357_9bdf_0246_8aceu64;
    let mut next = move || {
        seed ^= seed << 13;
        seed ^= seed >> 7;
        seed ^= seed << 17;
        seed
    };
    let keys = ['b', 's', 'c', '+', '-', 'x'];
    let mut a = App::new();
    for step in 1..=1500u64 {
        if next() % 3 == 0 {
            let noise: Vec<Double> =
                (0..4).map(|_| d((next() % 2001) as f64 / 1000.0 - 1.0)).collect();
            a.on_tick(&noise);
        } else if next() % 4 == 0 {
            a.handle_key(KeyCode::Tab, d(0.0));
        } else {
            let key = KeyCode::Char(keys[(next() % 6) as usize]);
            let slippage = match a.slippage_bound(key) {
                Some(bound) => {
                    assert!(f(bound) > 0.0);
                    f(bound) / 2.0
                }
                None => 0.0,
            };
            assert!(a.handle_key(key, d(slippage)));
        }
        assert!(a.selected < 4);
        assert!(a.trades.len() <= 12);
        assert!(1 <= a.log.len() && a.log.len() <= 18);
        let ticket = f(a.ticket.qty);
        assert!((1.0..=250.0).contains(&ticket) && ticket.fract() == 0.0);
        for i in 0..4 {
            let p = f(a.instruments[i].price);
            assert!(p >= 0.1);
            assert_eq!(a.instruments[i].history.len(), 120);
            assert_eq!(f(a.instruments[i].history[119].1), p);
            let q = f(a.positions[i].qty);
            assert!(q.fract() == 0.0 && q.abs() <= 250.0 * step as f64);
            assert!(f(a.positions[i].exposure(a.instruments[i].price)) >= 0.0);
        }
    }
}

#[test]
fn time_needs_a_selection_only_where_it_leaves_a_line() {
    let mut a = App::new();
    a.selected = 9;
    for _ in 0..7 {
        a.on_tick(&quiet());
    }
    assert_eq!((a.clock, a.log.len()), (7, 1));
    a.selected = 2;
    a.on_tick(&quiet());
    assert_eq!(a.log.len(), 2);
    assert!(a.log[0].starts_with("MARK SOLUSDT "));
}
