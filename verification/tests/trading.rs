//! Positions, instruments and the ticket, in part against plain floating-point code.
use trading_terminal::double::Double;
use trading_terminal::market::{
    flat, Color, Instrument, OrderTicket, Position, Side, MAX_HISTORY,
};

fn next(state: &mut u64) -> u64 {
    *state ^= *state << 13;
    *state ^= *state >> 7;
    *state ^= *state << 17;
    *state
}

fn d(x: f64) -> Double {
    Double::from_bits(x.to_bits())
}

fn f(x: Double) -> f64 {
    f64::from_bits(x.bits)
}

struct Plain {
    qty: f64,
    average: f64,
    realized: f64,
}

fn plain_fill(p: &mut Plain, sign: f64, qty: f64, price: f64) -> f64 {
    let signed = qty * sign;
    let old = p.qty;
    let new = old + signed;
    if old.abs() < f64::EPSILON || old.signum() == signed.signum() {
        let cost = (p.average * old.abs()) + (price * qty);
        p.qty = new;
        p.average = if new.abs() < f64::EPSILON { 0.0 } else { cost / new.abs() };
        return 0.0;
    }
    let closing = old.abs().min(qty);
    let gain =
        if old > 0.0 { (price - p.average) * closing } else { (p.average - price) * closing };
    p.realized += gain;
    p.qty = new;
    if new.abs() < f64::EPSILON {
        p.qty = 0.0;
        p.average = 0.0;
    } else if old.signum() != new.signum() {
        p.average = price;
    }
    gain
}

#[test]
fn fills_agree_with_plain_code() {
    let mut s = 99u64;
    let mut p = Position::new();
    let mut q = Plain { qty: 0.0, average: 0.0, realized: 0.0 };
    for i in 0..4000 {
        let (side, sign) =
            if next(&mut s) % 2 == 0 { (Side::Buy, 1.0) } else { (Side::Sell, -1.0) };
        let mut qty = (next(&mut s) % 250 + 1) as f64;
        if i % 7 == 0 {
            qty = q.qty.abs();
        } else if i % 11 == 0 {
            qty = qty / 3.0;
        }
        let price = (next(&mut s) % 10_000_000) as f64 / 97.0;
        let gain = plain_fill(&mut q, sign, qty, price);
        let r = p.apply_fill(side, d(qty), d(price));
        assert_eq!(f(r).to_bits(), gain.to_bits());
        assert_eq!(f(p.qty).to_bits(), q.qty.to_bits());
        assert_eq!(f(p.average_price).to_bits(), q.average.to_bits());
        assert_eq!(f(p.realized_pnl).to_bits(), q.realized.to_bits());
        let mark = (next(&mut s) % 10_000_000) as f64 / 89.0;
        let open = if q.qty.abs() < f64::EPSILON { 0.0 } else { (mark - q.average) * q.qty };
        assert_eq!(f(p.unrealized_pnl(d(mark))).to_bits(), open.to_bits());
        assert_eq!(f(p.exposure(d(mark))).to_bits(), (q.qty.abs() * mark).to_bits());
    }
}

#[test]
fn a_position_opens_grows_shrinks_turns_and_closes() {
    let mut p = Position::new();
    assert_eq!(f(p.apply_fill(Side::Buy, d(2.0), d(100.0))), 0.0);
    assert_eq!((f(p.qty), f(p.average_price)), (2.0, 100.0));
    assert_eq!(f(p.apply_fill(Side::Buy, d(2.0), d(110.0))), 0.0);
    assert_eq!((f(p.qty), f(p.average_price)), (4.0, 105.0));
    assert_eq!(f(p.unrealized_pnl(d(106.0))), 4.0);
    assert_eq!(f(p.exposure(d(106.0))), 424.0);
    assert_eq!(f(p.apply_fill(Side::Sell, d(1.0), d(115.0))), 10.0);
    assert_eq!((f(p.qty), f(p.average_price), f(p.realized_pnl)), (3.0, 105.0, 10.0));
    assert_eq!(f(p.apply_fill(Side::Sell, d(5.0), d(100.0))), -15.0);
    assert_eq!((f(p.qty), f(p.average_price), f(p.realized_pnl)), (-2.0, 100.0, -5.0));
    assert_eq!(f(p.exposure(d(100.0))), 200.0);
    assert_eq!(f(p.apply_fill(Side::Buy, d(2.0), d(90.0))), 20.0);
    assert_eq!((f(p.qty), f(p.average_price), f(p.realized_pnl)), (0.0, 0.0, 15.0));
    assert_eq!(f(p.unrealized_pnl(d(90.0))), 0.0);
}

#[test]
fn closing_at_the_average_price_yields_nothing() {
    let mut p = Position::new();
    p.apply_fill(Side::Sell, d(7.0), d(3.3));
    let at = p.average_price;
    assert_eq!(f(p.apply_fill(Side::Buy, d(4.0), at)), 0.0);
    assert_eq!(f(p.qty), -3.0);
    assert_eq!(f(p.average_price), f(at));
}

#[test]
fn whole_fills_add_up() {
    let mut s = 5u64;
    let mut p = Position::new();
    let mut k = 0i64;
    for _ in 0..2000 {
        let j = (next(&mut s) % 250 + 1) as i64;
        let price = d((next(&mut s) % 100000) as f64 / 31.0);
        if next(&mut s) % 2 == 0 {
            p.apply_fill(Side::Buy, d(j as f64), price);
            k += j;
        } else {
            p.apply_fill(Side::Sell, d(j as f64), price);
            k -= j;
        }
        assert_eq!(f(p.qty), k as f64);
    }
}

#[test]
fn quantities_below_epsilon_are_flat() {
    assert!(flat(d(0.0)));
    assert!(flat(d(-0.0)));
    assert!(flat(d(f64::EPSILON / 2.0)));
    assert!(!flat(d(f64::EPSILON)));
    assert!(!flat(d(-f64::EPSILON)));
    assert!(!flat(d(1.0)));
    assert!(!flat(d(f64::NAN)));
}

#[test]
fn sides_have_signs_labels_and_colours() {
    assert_eq!(f(Side::Buy.sign()), 1.0);
    assert_eq!(f(Side::Sell.sign()), -1.0);
    assert_eq!(Side::Buy.label(), "BUY");
    assert_eq!(Side::Sell.label(), "SELL");
    assert_eq!(Side::Buy.color(), Color::Green);
    assert_eq!(Side::Sell.color(), Color::Red);
}

#[test]
fn tickets_stay_between_one_and_250() {
    let mut t = OrderTicket::new();
    assert_eq!(f(t.qty), 1.0);
    t.decrease();
    assert_eq!(f(t.qty), 1.0);
    for k in 2..=250 {
        t.increase();
        assert_eq!(f(t.qty), k as f64);
    }
    t.increase();
    assert_eq!(f(t.qty), 250.0);
    t.decrease();
    assert_eq!(f(t.qty), 249.0);
    t.increase();
    assert_eq!(f(t.qty), 250.0);
}

#[test]
fn instruments_open_with_a_full_history() {
    let i = Instrument::new("XYZ", d(50.0), d(0.001), d(0.01));
    assert_eq!(i.symbol, "XYZ");
    assert_eq!(i.history.len(), MAX_HISTORY);
    assert_eq!(MAX_HISTORY, 120);
    for (k, p) in i.history.iter().enumerate() {
        assert_eq!((f(p.0), f(p.1)), (k as f64, 50.0));
    }
    assert_eq!(f(i.day_open), 50.0);
    assert_eq!(f(i.change_percent()), 0.0);
}

#[test]
fn ticks_agree_with_plain_code() {
    let mut s = 17u64;
    let mut i = Instrument::new("XYZ", d(142.0), d(0.0010), d(0.017));
    let mut price = 142.0f64;
    for clock in 1..400u64 {
        let noise = ((next(&mut s) % 34000) as f64 / 1000.0 - 17.0) / 1000.0;
        price = (price * (1.0 + 0.0010 + noise)).max(0.1);
        i.tick(clock, d(noise));
        assert_eq!(f(i.price).to_bits(), price.to_bits());
        assert_eq!(i.history.len(), MAX_HISTORY);
        let last = i.history[MAX_HISTORY - 1];
        assert_eq!((f(last.0), f(last.1)), (clock as f64, price));
        let change = ((price - 142.0) / 142.0) * 100.0;
        assert_eq!(f(i.change_percent()).to_bits(), change.to_bits());
    }
}

#[test]
fn prices_do_not_fall_below_the_floor() {
    let mut i = Instrument::new("XYZ", d(5.0), d(0.0), d(0.5));
    i.tick(1, d(-3.0));
    assert_eq!(f(i.price), 0.1);
    i.tick(2, d(f64::NAN));
    assert_eq!(f(i.price), 0.1);
    i.tick(3, d(1.0));
    assert_eq!(f(i.price), 0.2);
}
