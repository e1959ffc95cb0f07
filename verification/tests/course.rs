//! The course of a session.
use trading_terminal::double::Double;
use trading_terminal::session::{poll_timeout, tick_due, Action, Event, Phase, Session, TICK_NANOS};
use trading_terminal::terminal::KeyCode;

fn d(x: f64) -> Double {
    Double::from_bits(x.to_bits())
}

fn f(x: Double) -> f64 {
    f64::from_bits(x.bits)
}

fn reading() -> Session {
    let mut s = Session::new();
    s.step(Event::Drawn { elapsed: 0 });
    s.step(Event::Polled { ready: true });
    assert_eq!(s.phase, Phase::Reading);
    s
}

#[test]
fn the_wait_lasts_up_to_the_next_step() {
    assert_eq!(TICK_NANOS, 180_000_000);
    assert_eq!(poll_timeout(0), 180_000_000);
    assert_eq!(poll_timeout(1), 179_999_999);
    assert_eq!(poll_timeout(180_000_000), 0);
    assert_eq!(poll_timeout(u128::MAX), 0);
    assert!(!tick_due(179_999_999));
    assert!(tick_due(180_000_000));
}

#[test]
fn a_quiet_round_draws_again() {
    let mut s = Session::new();
    match s.step(Event::Drawn { elapsed: 30_000_000 }) {
        Action::Poll { timeout } => assert_eq!(timeout, 150_000_000),
        _ => panic!("no wait for input"),
    }
    assert!(matches!(s.step(Event::Polled { ready: false }), Action::ReadClock));
    assert!(matches!(s.step(Event::Timed { elapsed: 100 }), Action::Draw));
    assert_eq!(s.phase, Phase::Drawing);
    assert_eq!(s.app.clock, 0);
}

#[test]
fn a_step_of_the_market_restarts_the_clock() {
    let mut s = Session::new();
    s.step(Event::Drawn { elapsed: 0 });
    s.step(Event::Polled { ready: false });
    match s.step(Event::Timed { elapsed: 180_000_000 }) {
        Action::DrawNoise { bounds } => {
            let b: Vec<f64> = bounds.iter().map(|x| f(*x)).collect();
            assert_eq!(b, vec![0.012, 0.010, 0.017, 0.004]);
        }
        _ => panic!("no noise"),
    }
    assert!(matches!(s.step(Event::Noise { amounts: vec![] }), Action::Ignore));
    assert_eq!(s.app.clock, 0);
    let noise = vec![d(0.0), d(0.0), d(0.0), d(0.0)];
    assert!(matches!(s.step(Event::Noise { amounts: noise }), Action::RestartClock));
    assert_eq!(s.app.clock, 1);
    assert_eq!(f(s.app.instruments[0].price), 64_250.0 * 1.0018);
    assert!(matches!(s.step(Event::Restarted), Action::Draw));
}

#[test]
fn keys_are_handled_and_orders_ask_for_slippage() {
    let mut s = reading();
    assert!(matches!(s.step(Event::Read { key: Some(KeyCode::Tab) }), Action::ReadClock));
    assert_eq!(s.app.selected, 1);
    let mut s = reading();
    match s.step(Event::Read { key: Some(KeyCode::Char('b')) }) {
        Action::DrawSlippage { bound } => assert_eq!(f(bound), 64_250.0 * 0.0015),
        _ => panic!("no slippage"),
    }
    assert_eq!(s.app.trades.len(), 0);
    assert!(matches!(s.step(Event::Slippage { amount: d(2.0) }), Action::ReadClock));
    assert_eq!(f(s.app.trades[0].price), 64_252.0);
    let mut s = reading();
    assert!(matches!(s.step(Event::Read { key: Some(KeyCode::Char('c')) }), Action::ReadClock));
    assert_eq!(s.app.log[0], "Position in BTCUSDT is already flat.");
    let mut s = reading();
    assert!(matches!(s.step(Event::Read { key: None }), Action::ReadClock));
}

#[test]
fn quitting_ends_the_session() {
    for key in [KeyCode::Esc, KeyCode::Char('q')] {
        let mut s = reading();
        assert!(matches!(s.step(Event::Read { key: Some(key) }), Action::Quit));
        assert_eq!(s.phase, Phase::Ended);
        assert!(matches!(s.step(Event::Restarted), Action::Ignore));
    }
}

#[test]
fn what_is_not_awaited_is_ignored() {
    let mut s = Session::new();
    assert!(matches!(s.step(Event::Polled { ready: true }), Action::Ignore));
    assert!(matches!(s.step(Event::Slippage { amount: d(1.0) }), Action::Ignore));
    assert!(matches!(s.step(Event::Timed { elapsed: 1 }), Action::Ignore));
    assert_eq!(s.phase, Phase::Drawing);
}
