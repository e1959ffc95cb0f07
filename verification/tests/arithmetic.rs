//! Arithmetic against the machine's own.
use trading_terminal::double::Double;

fn next(state: &mut u64) -> u64 {
    *state ^= *state << 13;
    *state ^= *state >> 7;
    *state ^= *state << 17;
    *state
}

fn pick(state: &mut u64) -> f64 {
    let special = [
        0.0,
        -0.0,
        f64::INFINITY,
        f64::NEG_INFINITY,
        f64::NAN,
        1.0,
        f64::MAX,
        f64::MIN_POSITIVE,
    ];
    match next(state) % 8 {
        0 => f64::from_bits(next(state)),
        1 => (next(state) % 1000) as f64,
        2 => -((next(state) % 1000) as f64) / 8.0,
        3 => f64::from_bits(next(state) % (1u64 << 54)),
        4 => f64::from_bits(0x7fe0_0000_0000_0000 + next(state) % (1u64 << 53)),
        5 => (next(state) as f64) / 65536.0,
        6 => 1.0 + (next(state) % 4096) as f64 * f64::EPSILON,
        _ => special[(next(state) % 8) as usize],
    }
}

fn d(x: f64) -> Double {
    Double::from_bits(x.to_bits())
}

fn same(a: f64, b: Double) -> bool {
    let c = f64::from_bits(b.bits);
    if a.is_nan() {
        c.is_nan()
    } else {
        a.to_bits() == c.to_bits()
    }
}

#[test]
fn arithmetic_agrees_with_the_machine() {
    let mut s = 0x1234_5678_9abc_def1u64;
    for _ in 0..100000 {
        let a = pick(&mut s);
        let b = pick(&mut s);
        let (x, y) = (d(a), d(b));
        assert!(same(a + b, x.plus(y)), "{:?} + {:?}", a, b);
        assert!(same(a - b, x.minus(y)), "{:?} - {:?}", a, b);
        assert!(same(a * b, x.times(y)), "{:?} * {:?}", a, b);
        assert!(same(a / b, x.over(y)), "{:?} / {:?}", a, b);
    }
}

#[test]
fn comparisons_agree_with_the_machine() {
    let mut s = 0x0fed_cba9_8765_4321u64;
    for _ in 0..100000 {
        let a = pick(&mut s);
        let b = pick(&mut s);
        let (x, y) = (d(a), d(b));
        assert_eq!(a < b, x.lt(y), "{:?} < {:?}", a, b);
        assert_eq!(a == b, x.equals(y), "{:?} == {:?}", a, b);
        assert!(same(a.abs(), x.abs()));
        assert!(same(-a, x.negate()));
        assert!(same(a.signum(), x.signum()));
        // Which of the two zeros comes out is left open by the machine.
        assert!(same(a.min(b) + 0.0, x.min(y).plus(d(0.0))), "min {:?} {:?}", a, b);
        assert!(same(a.max(b) + 0.0, x.max(y).plus(d(0.0))), "max {:?} {:?}", a, b);
        assert_eq!(a.is_nan(), x.is_nan());
        assert_eq!(a.is_finite(), x.is_finite());
        assert_eq!(a == 0.0, x.is_zero());
    }
}

#[test]
fn whole_numbers_are_rounded_like_casts() {
    let mut s = 7u64;
    for _ in 0..10000 {
        let n = next(&mut s) >> (next(&mut s) % 64);
        assert!(same(n as f64, Double::from_whole(n)), "{}", n);
    }
    assert!(same(0.0, Double::from_whole(0)));
    assert!(same(u64::MAX as f64, Double::from_whole(u64::MAX)));
    assert!(same(9007199254740993u64 as f64, Double::from_whole(9007199254740993)));
}

#[test]
fn ratios_are_the_decimal_literals() {
    assert!(same(0.0018, Double::from_ratio(18, 10000)));
    assert!(same(0.0013, Double::from_ratio(13, 10000)));
    assert!(same(0.0010, Double::from_ratio(10, 10000)));
    assert!(same(0.0004, Double::from_ratio(4, 10000)));
    assert!(same(0.012, Double::from_ratio(12, 1000)));
    assert!(same(0.010, Double::from_ratio(10, 1000)));
    assert!(same(0.017, Double::from_ratio(17, 1000)));
    assert!(same(0.004, Double::from_ratio(4, 1000)));
    assert!(same(201.4, Double::from_ratio(2014, 10)));
    assert!(same(0.0015, Double::from_ratio(15, 10000)));
    assert!(same(0.9992, Double::from_ratio(9992, 10000)));
    assert!(same(1.0008, Double::from_ratio(10008, 10000)));
    assert!(same(0.15, Double::from_ratio(15, 100)));
    assert!(same(0.1, Double::from_ratio(1, 10)));
    assert!(same(0.0, Double::from_ratio(0, 7)));
    assert!(same(1.0 / 3.0, Double::from_ratio(1, 3)));
    assert!(same(1.0, Double::from_ratio(u64::MAX, u64::MAX)));
    assert!(same(1.0 / 18446744073709551615.0, Double::from_ratio(1, u64::MAX)));
}

#[test]
fn overflow_and_underflow_round_to_the_ends() {
    assert!(same(f64::INFINITY, d(f64::MAX).plus(d(f64::MAX))));
    assert!(same(f64::NEG_INFINITY, d(-f64::MAX).times(d(2.0))));
    assert!(same(f64::MAX, d(f64::MAX).plus(d(1.0))));
    assert!(same(0.0, d(f64::MIN_POSITIVE).times(d(f64::MIN_POSITIVE))));
    assert!(same(-0.0, d(-f64::MIN_POSITIVE).times(d(f64::MIN_POSITIVE))));
    assert!(same(f64::from_bits(1), d(f64::MIN_POSITIVE).over(d(4503599627370496.0))));
    assert!(same(f64::INFINITY, d(1.0).over(d(0.0))));
    assert!(same(f64::NAN, d(0.0).over(d(0.0))));
    assert!(same(f64::NAN, d(f64::INFINITY).minus(d(f64::INFINITY))));
    assert!(same(f64::NAN, d(f64::INFINITY).times(d(0.0))));
    assert!(same(f64::INFINITY, Double::infinity(false)));
    assert!(same(f64::NEG_INFINITY, Double::infinity(true)));
    assert!(same(0.0, Double::signed_zero(false)));
    assert!(same(-0.0, Double::signed_zero(true)));
}

#[test]
fn rounding_goes_to_the_nearest_number() {
    // 2^53 + 1 lies between two numbers and goes to the even one, 2^53 + 3 goes up.
    let big = Double::from_whole(1 << 53);
    let one = Double::from_whole(1);
    let three = Double::from_whole(3);
    assert!(same(9007199254740992.0, big.plus(one)));
    assert!(same(9007199254740996.0, big.plus(three)));
}

#[test]
fn the_negative_zero_is_the_smaller_one() {
    assert!(same(-0.0, d(0.0).min(d(-0.0))));
    assert!(same(-0.0, d(-0.0).min(d(0.0))));
    assert!(same(0.0, d(0.0).max(d(-0.0))));
    assert!(same(0.0, d(-0.0).max(d(0.0))));
    assert!(same(2.0, d(f64::NAN).min(d(2.0))));
    assert!(same(2.0, d(2.0).max(d(f64::NAN))));
}
