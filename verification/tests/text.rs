//! Numbers as text against the standard formatting.
use trading_terminal::decimal::{format_cents, format_digits, format_padded, format_rounded};
use trading_terminal::double::Double;

fn next(state: &mut u64) -> u64 {
    *state ^= *state << 13;
    *state ^= *state >> 7;
    *state ^= *state << 17;
    *state
}

fn d(x: f64) -> Double {
    Double::from_bits(x.to_bits())
}

fn check(x: f64) {
    assert_eq!(format_cents(d(x), false), format!("{:.2}", x));
    assert_eq!(format_cents(d(x), true), format!("{:+.2}", x));
    assert_eq!(format_rounded(d(x)), format!("{:.0}", x));
}

#[test]
fn fixed_decimals_agree_with_std() {
    let mut s = 0x5555_1234_9999_0001u64;
    for _ in 0..20000 {
        check((next(&mut s) % 100_000_000) as f64 / 1000.0);
        check(-((next(&mut s) % 100_000_000) as f64) / 7.0);
        check((next(&mut s) % 1000) as f64 / 8.0);
        check(f64::from_bits(next(&mut s) % (1u64 << 62)));
    }
}

#[test]
fn large_and_special_numbers_agree_with_std() {
    for x in [
        0.0,
        -0.0,
        f64::NAN,
        f64::INFINITY,
        f64::NEG_INFINITY,
        f64::MAX,
        -f64::MAX,
        f64::MIN_POSITIVE,
        1e22,
        1e300,
        9007199254740993.0,
        18014398509481984.0,
    ] {
        check(x);
    }
}

#[test]
fn ties_go_to_the_even_digit() {
    assert_eq!(format_cents(d(0.125), false), "0.12");
    assert_eq!(format_cents(d(0.375), false), "0.38");
    assert_eq!(format_cents(d(0.375), true), "+0.38");
    assert_eq!(format_rounded(d(0.5)), "0");
    assert_eq!(format_rounded(d(1.5)), "2");
    assert_eq!(format_rounded(d(2.5)), "2");
    assert_eq!(format_cents(d(-0.001), false), "-0.00");
    assert_eq!(format_cents(d(64250.0), false), "64250.00");
}

#[test]
fn digits_are_padded_to_three() {
    assert_eq!(format_digits(0), "0");
    assert_eq!(format_digits(10), "10");
    assert_eq!(format_digits(u64::MAX), "18446744073709551615");
    for n in [0u64, 7, 10, 99, 100, 101, 12345] {
        assert_eq!(format_padded(n), format!("{:03}", n));
    }
}
